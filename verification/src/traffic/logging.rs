//! Records of finished traffic patterns and the tokens that their report
//! lines carry.

use vstd::prelude::*;

verus! {

#[derive(Debug, Clone)]
pub struct PatternCheckpoint {
    pub core_id: usize,
    pub pattern_idx: usize,
    pub pattern_name: String,
    pub finished_cycle: u64,
    pub duration_cycles: u64,
}

impl Default for PatternCheckpoint {
    fn default() -> (r: Self)
        ensures
            r.core_id == 0,
            r.pattern_idx == 0,
            r.pattern_name@.len() == 0,
            r.finished_cycle == 0,
            r.duration_cycles == 0,
    {
        Self {
            core_id: 0,
            pattern_idx: 0,
            pattern_name: String::new(),
            finished_cycle: 0,
            duration_cycles: 0,
        }
    }
}

/// Appends `c` to `s` (std's `String::push`).
#[verifier::external_body]
fn push_char(s: &mut String, c: char)
    ensures
        final(s)@ == old(s)@.push(c),
{
    s.push(c);
}

/// `s` with every space replaced by an underscore.
pub open spec fn sanitized(s: Seq<char>) -> Seq<char> {
    Seq::new(s.len(), |i: int| if s[i] == ' ' { '_' } else { s[i] })
}

/// `s` ends with the two characters `a` and `b`.
pub open spec fn ends_with2(s: Seq<char>, a: char, b: char) -> bool {
    s.len() >= 2 && s[s.len() - 2] == a && s[s.len() - 1] == b
}

pub struct TrafficLogger;

impl TrafficLogger {
    /// A report token: the text with spaces turned into underscores.
    pub fn sanitize_token(s: &str) -> (r: String)
        ensures
            r@ == sanitized(s@),
    {
        let n = s.unicode_len();
        let mut out = String::new();
        let mut i: usize = 0;
        while i < n
            invariant
                n == s@.len(),
                i <= n,
                out@ == sanitized(s@.take(i as int)),
            decreases n - i,
        {
            let c = s.get_char(i);
            if c == ' ' {
                push_char(&mut out, '_');
            } else {
                push_char(&mut out, c);
            }
            i = i + 1;
            proof {
                assert(out@ =~= sanitized(s@.take(i as int)));
            }
        }
        assert(s@.take(n as int) =~= s@);
        out
    }

    /// Direction of a pattern from its name: `w` for a name ending in `_w`,
    /// `r` for one ending in `_r`, `na` otherwise.
    pub fn op_from_pattern(pattern_name: &str) -> (r: &'static str)
        ensures
            ends_with2(pattern_name@, '_', 'w') ==> r@ == "w"@,
            !ends_with2(pattern_name@, '_', 'w') && ends_with2(pattern_name@, '_', 'r') ==> r@
                == "r"@,
            !ends_with2(pattern_name@, '_', 'w') && !ends_with2(pattern_name@, '_', 'r') ==> r@
                == "na"@,
    {
        let n = pattern_name.unicode_len();
        if n >= 2 {
            let a = pattern_name.get_char(n - 2);
            let b = pattern_name.get_char(n - 1);
            if a == '_' && b == 'w' {
                return "w";
            }
            if a == '_' && b == 'r' {
                return "r";
            }
        }
        "na"
    }
}

} // verus!
