//! The security plugin: the ⎕SEC level read from the system variables, and
//! the system commands that each level blocks (level 1: )COPY, )IN and
//! )INP; level 2: also )SAVE, )LOAD, )OUT and )CONTINUE).

use vstd::prelude::*;
use crate::cell::Cell;
use crate::plugin_system::PluginInfo;
use crate::quad::{char_is_white, trim_chars, trimmed, white_space};
use crate::text::{chars_to_string, str_chars};
use crate::types::{AplResult, ErrorCode};
use crate::value::ValueP;

verus! {

/// `str::to_uppercase`: the upper case of a text.
pub uninterp spec fn upper_text_of(s: Seq<char>) -> Seq<char>;

/// The code of an ASCII character in upper case: `a`…`z` move by 32.
pub open spec fn ascii_upper_code(u: u32) -> u32 {
    if 97 <= u <= 122 { (u - 32) as u32 } else { u }
}

/// `str::to_uppercase`: a name for its result; on ASCII text it is the
/// same text with the letters `a` to `z` made `A` to `Z`.
#[verifier::external_body]
pub(crate) fn upper_text(s: &str) -> (r: String)
    ensures
        r@ == upper_text_of(s@),
        (forall|i: int| 0 <= i < s@.len() ==> (#[trigger] s@[i] as u32) < 128) ==> (r@.len() == s@.len()
            && forall|i: int| 0 <= i < s@.len() ==> #[trigger] r@[i] as u32 == ascii_upper_code(s@[i] as u32)),
{
    s.to_uppercase()
}

/// The security level of the system variables `sysvars`: the integer
/// first in the first binding of ⎕SEC when it is 0, 1 or 2, and 0
/// otherwise.
pub open spec fn sec_level_of(sysvars: Seq<(String, ValueP)>) -> i64
    decreases sysvars.len(),
{
    if sysvars.len() == 0 {
        0
    } else if sysvars[0].0@ == crate::sysvars::SEC_VAR@ {
        let v = sysvars[0].1;
        if v.ravel().len() > 0 && v.ravel()[0] is Int && 0 <= v.ravel()[0]->Int_0 <= 2 {
            v.ravel()[0]->Int_0
        } else {
            0
        }
    } else {
        sec_level_of(sysvars.drop_first())
    }
}

/// The ⎕SEC level held by `sysvars` (see `sec_level_of`).
pub fn get_sec_level(sysvars: &[(String, ValueP)]) -> (r: i64)
    ensures
        r == sec_level_of(sysvars@),
{
    let key: String = crate::sysvars::SEC_VAR.to_owned();
    let mut i: usize = 0;
    assert(sysvars@.skip(0) =~= sysvars@);
    while i < sysvars.len()
        invariant
            i <= sysvars@.len(),
            key@ == crate::sysvars::SEC_VAR@,
            sec_level_of(sysvars@) == sec_level_of(sysvars@.skip(i as int)),
        decreases sysvars@.len() - i,
    {
        proof {
            assert(sysvars@.skip(i as int)[0] == sysvars@[i as int]);
            assert(sysvars@.skip(i as int).drop_first() =~= sysvars@.skip(i as int + 1));
        }
        if sysvars[i].0 == key {
            return match sysvars[i].1.first_cell() {
                Some(Cell::Int(k)) => if 0 <= *k && *k <= 2 { *k } else { 0 },
                _ => 0,
            };
        }
        i += 1;
    }
    proof {
        assert(sysvars@.skip(i as int) =~= Seq::<(String, ValueP)>::empty());
    }
    0
}

/// `w` is the first word of `s`: the characters after the leading white
/// space up to the next white space.
pub open spec fn first_word(s: Seq<char>, w: Seq<char>) -> bool {
    exists|i: int, j: int| #![trigger s.subrange(i, j)]
        0 <= i <= j <= s.len()
        && w == s.subrange(i, j)
        && (forall|k: int| 0 <= k < i ==> white_space(#[trigger] s[k]))
        && (i == s.len() || !white_space(s[i]))
        && (forall|k: int| i <= k < j ==> !white_space(#[trigger] s[k]))
        && (j == s.len() || white_space(s[j]))
}

/// The first word of `s`.
fn first_word_of(s: &[char]) -> (r: Vec<char>)
    ensures
        first_word(s@, r@),
{
    let n = s.len();
    let mut i: usize = 0;
    while i < n && char_is_white(s[i])
        invariant
            n == s@.len(),
            i <= n,
            forall|k: int| 0 <= k < i ==> white_space(#[trigger] s@[k]),
        decreases n - i,
    {
        i += 1;
    }
    let mut j: usize = i;
    while j < n && !char_is_white(s[j])
        invariant
            n == s@.len(),
            i <= j <= n,
            forall|k: int| i <= k < j ==> !white_space(#[trigger] s@[k]),
        decreases n - j,
    {
        j += 1;
    }
    let w = crate::text::sub_chars(s, i, j);
    assert(first_word(s@, w@)) by {
        assert(w@ == s@.subrange(i as int, j as int));
    }
    w
}

/// The command word of a system command line: the first word of the
/// upper case of the line without its surrounding white space.
pub open spec fn command_word(cmd: Seq<char>, w: Seq<char>) -> bool {
    first_word(upper_text_of(trimmed(cmd)), w)
}

/// Whether `w` is a command that level `sec` blocks.
pub open spec fn syscmd_blocked(w: Seq<char>, sec: i64) -> bool {
    ||| (sec == 1 && (w == "COPY"@ || w == "IN"@ || w == "INP"@))
    ||| (sec == 2 && (w == "COPY"@ || w == "IN"@ || w == "INP"@ || w == "SAVE"@ || w == "LOAD"@
            || w == "OUT"@ || w == "CONTINUE"@))
}

/// Whether the characters `w` spell `s`.
pub(crate) fn spells(w: &Vec<char>, s: &str) -> (r: bool)
    ensures
        r == (w@ == s@),
{
    let t = str_chars(s);
    if w.len() != t.len() {
        return false;
    }
    let mut i: usize = 0;
    while i < t.len()
        invariant
            t@ == s@,
            w@.len() == t@.len(),
            i <= t@.len(),
            forall|k: int| 0 <= k < i ==> w@[k] == t@[k],
        decreases t@.len() - i,
    {
        if w[i] != t[i] {
            assert(w@[i as int] != t@[i as int]);
            return false;
        }
        i += 1;
    }
    assert(w@ =~= t@);
    true
}

/// Whether system command line `cmd` is allowed at security level `sec`:
/// a SECURITY ERROR when its command word is one that the level blocks.
pub fn check_syscmd(cmd: &str, sec: i64) -> (r: AplResult<()>)
    ensures
        exists|w: Seq<char>| command_word(cmd@, w) && (if syscmd_blocked(w, sec) {
            r == Err::<(), ErrorCode>(ErrorCode::SecurityError)
        } else {
            r is Ok
        }),
{
    let chars = str_chars(cmd);
    let t = trim_chars(chars.as_slice());
    let ts = chars_to_string(t.as_slice());
    let up = upper_text(ts.as_str());
    let uc = str_chars(up.as_str());
    let w = first_word_of(uc.as_slice());
    assert(command_word(cmd@, w@));
    let restricted = spells(&w, "COPY") || spells(&w, "IN") || spells(&w, "INP");
    let locked = restricted || spells(&w, "SAVE") || spells(&w, "LOAD") || spells(&w, "OUT")
        || spells(&w, "CONTINUE");
    if (sec == 1 && restricted) || (sec == 2 && locked) {
        Err(ErrorCode::SecurityError)
    } else {
        Ok(())
    }
}

/// The security plugin.
pub struct SecurityPlugin;

impl SecurityPlugin {
    /// the plugin
    pub fn new() -> Self {
        SecurityPlugin
    }

    /// what the plugin tells of itself
    pub fn info(&self) -> (r: PluginInfo)
        ensures
            r.name@ == "security"@,
            r.version@ == "0.1.0"@,
            r.description@ == "Security level (⎕SEC) — sandboxing extension"@,
    {
        PluginInfo::new("security", "0.1.0", "Security level (⎕SEC) — sandboxing extension")
    }
}

} // verus!
