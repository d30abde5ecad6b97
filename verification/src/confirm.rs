//! The confirmation check: one line of input, trimmed of surrounding
//! whitespace, must be exactly "y" or "Y" for a deletion to proceed.
//! Anything else — "yes" included, on purpose — declines it.

use vstd::prelude::*;
use vstd::string::StrSliceExecFns;

verus! {

/// The whitespace the trim removes: every character with the Unicode
/// White_Space property — the controls, the spaces of every width, the no
/// break spaces, and the line and paragraph separators.
pub open spec fn is_blank(c: char) -> bool {
    c == '\u{9}' || c == '\u{a}' || c == '\u{b}' || c == '\u{c}' || c == '\u{d}' || c == ' '
        || c == '\u{85}' || c == '\u{a0}' || c == '\u{1680}' || c == '\u{2000}' || c == '\u{2001}'
        || c == '\u{2002}' || c == '\u{2003}' || c == '\u{2004}' || c == '\u{2005}'
        || c == '\u{2006}' || c == '\u{2007}' || c == '\u{2008}' || c == '\u{2009}'
        || c == '\u{200a}' || c == '\u{2028}' || c == '\u{2029}' || c == '\u{202f}'
        || c == '\u{205f}' || c == '\u{3000}'
}

/// `s` without its leading whitespace.
pub open spec fn trim_start_spec(s: Seq<char>) -> Seq<char>
    decreases s.len(),
{
    if s.len() == 0 {
        s
    } else if is_blank(s[0]) {
        trim_start_spec(s.drop_first())
    } else {
        s
    }
}

/// `s` without its trailing whitespace.
pub open spec fn trim_end_spec(s: Seq<char>) -> Seq<char>
    decreases s.len(),
{
    if s.len() == 0 {
        s
    } else if is_blank(s.last()) {
        trim_end_spec(s.drop_last())
    } else {
        s
    }
}

/// `s` without its surrounding whitespace.
pub open spec fn trimmed(s: Seq<char>) -> Seq<char> {
    trim_end_spec(trim_start_spec(s))
}

/// The inputs that confirm a deletion: exactly the lines whose trimmed text
/// is the single letter "y" or "Y".
pub open spec fn spec_confirm(s: Seq<char>) -> bool {
    trimmed(s) == seq!['y'] || trimmed(s) == seq!['Y']
}

proof fn lemma_trim_start_at(s: Seq<char>, i: int)
    requires
        0 <= i <= s.len(),
        forall|k: int| 0 <= k < i ==> is_blank(s[k]),
        i < s.len() ==> !is_blank(s[i]),
    ensures
        trim_start_spec(s) =~= s.subrange(i, s.len() as int),
    decreases i,
{
    if i == 0 {
        if s.len() > 0 && !is_blank(s[0]) {
            assert(trim_start_spec(s) =~= s.subrange(0, s.len() as int));
        }
    } else {
        lemma_trim_start_at(s.drop_first(), i - 1);
        assert(s.drop_first().subrange(i - 1, s.len() - 1) =~= s.subrange(i, s.len() as int));
    }
}

proof fn lemma_trim_end_at(s: Seq<char>, j: int)
    requires
        0 <= j <= s.len(),
        forall|k: int| j <= k < s.len() ==> is_blank(s[k]),
        j > 0 ==> !is_blank(s[j - 1]),
    ensures
        trim_end_spec(s) =~= s.subrange(0, j),
    decreases s.len() - j,
{
    if j == s.len() {
        if s.len() > 0 {
            assert(trim_end_spec(s) =~= s.subrange(0, j));
        }
    } else {
        assert(is_blank(s.last()));
        lemma_trim_end_at(s.drop_last(), j);
        assert(s.drop_last().subrange(0, j) =~= s.subrange(0, j));
    }
}

fn is_blank_char(c: char) -> (r: bool)
    ensures
        r == is_blank(c),
{
    c == '\u{9}' || c == '\u{a}' || c == '\u{b}' || c == '\u{c}' || c == '\u{d}' || c == ' '
        || c == '\u{85}' || c == '\u{a0}' || c == '\u{1680}' || c == '\u{2000}' || c == '\u{2001}'
        || c == '\u{2002}' || c == '\u{2003}' || c == '\u{2004}' || c == '\u{2005}'
        || c == '\u{2006}' || c == '\u{2007}' || c == '\u{2008}' || c == '\u{2009}'
        || c == '\u{200a}' || c == '\u{2028}' || c == '\u{2029}' || c == '\u{202f}'
        || c == '\u{205f}' || c == '\u{3000}'
}

/// Reads the user's answer out of one input line: true exactly when the
/// line, with surrounding whitespace trimmed, is exactly "y" or "Y".
/// "yes" and every other text decline.
pub fn confirm(line: &str) -> (r: bool)
    ensures
        r == spec_confirm(line@),
{
    let n: usize = line.unicode_len();
    let mut i: usize = 0;
    loop
        invariant_except_break
            i <= n,
            n == line@.len(),
            forall|k: int| 0 <= k < i ==> is_blank(line@[k]),
        ensures
            i <= n,
            n == line@.len(),
            forall|k: int| 0 <= k < i ==> is_blank(line@[k]),
            i < n ==> !is_blank(line@[i as int]),
        decreases n - i,
    {
        if i < n {
            if is_blank_char(line.get_char(i)) {
                i = i + 1;
            } else {
                break ;
            }
        } else {
            break ;
        }
    }
    let mut j: usize = n;
    loop
        invariant_except_break
            i <= j <= n,
            n == line@.len(),
            i < n ==> !is_blank(line@[i as int]),
            forall|k: int| j <= k < n ==> is_blank(line@[k]),
        ensures
            i <= j <= n,
            n == line@.len(),
            forall|k: int| j <= k < n ==> is_blank(line@[k]),
            j > i ==> !is_blank(line@[j - 1]),
        decreases j,
    {
        if j > i {
            if is_blank_char(line.get_char(j - 1)) {
                j = j - 1;
            } else {
                break ;
            }
        } else {
            break ;
        }
    }
    proof {
        lemma_trim_start_at(line@, i as int);
        let tail = line@.subrange(i as int, n as int);
        lemma_trim_end_at(tail, j - i);
        assert(tail.subrange(0, j - i) =~= line@.subrange(i as int, j as int));
        assert(trimmed(line@) == line@.subrange(i as int, j as int));
    }
    if j - i == 1 {
        let c = line.get_char(i);
        proof {
            let t = line@.subrange(i as int, j as int);
            assert(t =~= seq![line@[i as int]]);
            assert(t[0] == c);
            assert(seq!['y'][0] == 'y');
            assert(seq!['Y'][0] == 'Y');
            assert((t == seq!['y']) <==> c == 'y') by {
                if c == 'y' {
                    assert(t =~= seq!['y']);
                }
            }
            assert((t == seq!['Y']) <==> c == 'Y') by {
                if c == 'Y' {
                    assert(t =~= seq!['Y']);
                }
            }
        }
        c == 'y' || c == 'Y'
    } else {
        proof {
            assert(line@.subrange(i as int, j as int).len() != 1);
            assert(seq!['y'].len() == 1);
            assert(seq!['Y'].len() == 1);
        }
        false
    }
}

} // verus!
