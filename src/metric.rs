//! The choice of distance metric, and its names.
use vstd::prelude::*;

verus! {

/// How the distance between two locations is measured.
#[derive(Debug, Copy, Clone, PartialEq, Eq, Structural)]
pub enum DistType {
    /// Sum of absolute coordinate differences.
    L1,
    /// Euclidean norm of the difference.
    L2,
    /// Euclidean norm of the difference, squared.
    L2Sq,
    /// Largest absolute coordinate difference.
    LInf,
}

/// `c` with an ASCII upper-case letter turned to lower case; any other
/// character as it is.
pub open spec fn ascii_lower(c: char) -> char {
    if 'A' <= c <= 'Z' {
        ((c as u32) + 32) as char
    } else {
        c
    }
}

/// `s` with every ASCII upper-case letter turned to lower case.
pub open spec fn ascii_lower_str(s: Seq<char>) -> Seq<char> {
    s.map_values(|c: char| ascii_lower(c))
}

/// The metric that a lower-case name stands for.
pub open spec fn metric_named(w: Seq<char>) -> Option<DistType> {
    if w == "l1"@ {
        Some(DistType::L1)
    } else if w == "l2"@ {
        Some(DistType::L2)
    } else if w == "l2sq"@ || w == "l2_sq"@ {
        Some(DistType::L2Sq)
    } else if w == "linf"@ || w == "l_inf"@ {
        Some(DistType::LInf)
    } else {
        None
    }
}

/// Relies on `str::to_ascii_lowercase`: each ASCII upper-case letter becomes
/// lower case, every other character stays.
#[verifier::external_body]
fn lowercase_ascii(s: &str) -> (r: String)
    ensures
        r@ == ascii_lower_str(s@),
{
    s.to_ascii_lowercase()
}

impl DistType {
    /// The metric named by `s`, in any mix of ASCII case: `l1`, `l2`,
    /// `l2sq` or `l2_sq`, `linf` or `l_inf`.
    pub fn parse(s: &str) -> (r: Option<DistType>)
        ensures
            r == metric_named(ascii_lower_str(s@)),
    {
        let w = lowercase_ascii(s);
        DistType::parse_lower(&w)
    }

    /// The metric named by the lower-case word `w`.
    pub fn parse_lower(w: &String) -> (r: Option<DistType>)
        ensures
            r == metric_named(w@),
    {
        if *w == String::from_str("l1") {
            Some(DistType::L1)
        } else if *w == String::from_str("l2") {
            Some(DistType::L2)
        } else if *w == String::from_str("l2sq") || *w == String::from_str("l2_sq") {
            Some(DistType::L2Sq)
        } else if *w == String::from_str("linf") || *w == String::from_str("l_inf") {
            Some(DistType::LInf)
        } else {
            None
        }
    }

    /// The metric's display name.
    pub fn name(&self) -> (r: &'static str)
        ensures
            r@ == self.name_spec(),
    {
        match self {
            DistType::L1 => "L1",
            DistType::L2 => "L2",
            DistType::L2Sq => "Squared L2",
            DistType::LInf => "L infinity",
        }
    }

    /// The display name of each metric.
    pub open spec fn name_spec(&self) -> Seq<char> {
        match self {
            DistType::L1 => "L1"@,
            DistType::L2 => "L2"@,
            DistType::L2Sq => "Squared L2"@,
            DistType::LInf => "L infinity"@,
        }
    }
}

impl std::str::FromStr for DistType {
    type Err = String;

    /// The metric named by `s` in any ASCII case, or a message that names
    /// the lower-cased word.
    fn from_str(s: &str) -> (r: Result<DistType, String>) {
        let w = lowercase_ascii(s);
        match DistType::parse_lower(&w) {
            Some(t) => Ok(t),
            None => {
                let mut msg = <String as vstd::string::StringExecFns>::from_str("unsupported type: ");
                msg.append(w.as_str());
                Err(msg)
            },
        }
    }
}

} // verus!
