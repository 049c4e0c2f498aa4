//! Severities of the messages a sweep prints.
use vstd::prelude::*;

verus! {

#[derive(Debug, Clone, Copy, PartialEq, Eq, Structural)]
pub enum Log {
    INF,
    WRN,
    ERR,
}

impl Log {
    /// The tag that opens a message of this severity.
    pub fn tag(&self) -> (r: String)
        ensures
            *self == Log::INF ==> r@ == seq!['[', 'i', 'n', 'f', ']'],
            *self == Log::WRN ==> r@ == seq!['[', 'w', 'r', 'n', ']'],
            *self == Log::ERR ==> r@ == seq!['[', 'e', 'r', 'r', ']'],
    {
        match self {
            Log::INF => {
                let r = String::from_str("[inf]");
                proof {
                    reveal_strlit("[inf]");
                    assert(r@ =~= seq!['[', 'i', 'n', 'f', ']']);
                }
                r
            },
            Log::WRN => {
                let r = String::from_str("[wrn]");
                proof {
                    reveal_strlit("[wrn]");
                    assert(r@ =~= seq!['[', 'w', 'r', 'n', ']']);
                }
                r
            },
            Log::ERR => {
                let r = String::from_str("[err]");
                proof {
                    reveal_strlit("[err]");
                    assert(r@ =~= seq!['[', 'e', 'r', 'r', ']']);
                }
                r
            },
        }
    }
}

} // verus!
