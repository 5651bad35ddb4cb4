//! The loader's parsing rule: a configuration line is split at its first
//! `'='` into a key and a value.

use vstd::prelude::*;

verus! {

/// True when some character of `s` is the separator `'='`.
pub open spec fn has_separator(s: Seq<char>) -> bool {
    exists|i: int| 0 <= i < s.len() && s[i] == '='
}

/// Splits a configuration line at its first `'='`: the key is everything
/// before that separator, the value everything after it, further `'='`
/// characters included. A line without a separator (a blank line among
/// them) carries no entry and yields nothing.
pub fn parse_line(line: &str) -> (r: Option<(String, String)>)
    ensures
        match r {
            Some(kv) => exists|i: int|
                {
                    &&& 0 <= i < line@.len()
                    &&& line@[i] == '='
                    &&& forall|j: int| 0 <= j < i ==> line@[j] != '='
                    &&& kv.0@ == line@.subrange(0, i)
                    &&& kv.1@ == line@.subrange(i + 1, line@.len() as int)
                },
            None => !has_separator(line@),
        },
{
    let n = line.unicode_len();
    let mut idx: usize = 0;
    while idx < n
        invariant
            n == line@.len(),
            idx <= n,
            forall|j: int| 0 <= j < idx ==> line@[j] != '=',
        decreases n - idx,
    {
        if line.get_char(idx) == '=' {
            let key = line.substring_char(0, idx).to_owned();
            let value = line.substring_char(idx + 1, n).to_owned();
            proof {
                let i = idx as int;
                assert(0 <= i < line@.len() && line@[i] == '=' && (forall|j: int|
                    0 <= j < i ==> line@[j] != '=') && key@ == line@.subrange(0, i) && value@
                    == line@.subrange(i + 1, line@.len() as int));
            }
            return Some((key, value));
        }
        idx += 1;
    }
    None
}

} // verus!
