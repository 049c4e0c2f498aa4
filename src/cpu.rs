//! The processor frequency policies a sweep switches between.
use vstd::prelude::*;

verus! {

#[derive(Debug, Clone, Copy, PartialEq, Eq, Structural)]
pub enum CpuFreq {
    Powersave,
    Performance,
}

impl CpuFreq {
    /// The scaling governor's name for this policy.
    pub fn governor(&self) -> (r: String)
        ensures
            *self == CpuFreq::Powersave ==> r@ == seq!['p', 'o', 'w', 'e', 'r', 's', 'a', 'v', 'e'],
            *self == CpuFreq::Performance ==> r@ == seq![
                'p', 'e', 'r', 'f', 'o', 'r', 'm', 'a', 'n', 'c', 'e'
            ],
    {
        match self {
            CpuFreq::Powersave => {
                let r = String::from_str("powersave");
                proof {
                    reveal_strlit("powersave");
                    assert(r@ =~= seq!['p', 'o', 'w', 'e', 'r', 's', 'a', 'v', 'e']);
                }
                r
            },
            CpuFreq::Performance => {
                let r = String::from_str("performance");
                proof {
                    reveal_strlit("performance");
                    assert(r@ =~= seq!['p', 'e', 'r', 'f', 'o', 'r', 'm', 'a', 'n', 'c', 'e']);
                }
                r
            },
        }
    }
}

} // verus!
