//! Selector state machines for the two interactive lists: the single-select
//! root picker and the multi-select target picker. The surrounding binary
//! decodes raw terminal input into [`Key`] values and draws each frame; every
//! state transition and the committed result are decided here.

use vstd::prelude::*;
use vstd::string::StrSliceExecFns;

verus! {

use crate::scan::clone_path;

/// A key event as the selector loops see it, after the terminal backend has
/// decoded the raw input.
#[derive(Clone, Copy, Debug, PartialEq, Eq)]
pub enum Key {
    Up,
    Down,
    Enter,
    Space,
    Letter(char),
    Other,
}

/// Cursor position after one "down" step: wraps from the last row to row 0.
pub open spec fn spec_down(cursor: int, len: int) -> int {
    if cursor + 1 < len {
        cursor + 1
    } else {
        0
    }
}

/// Cursor position after one "up" step: wraps from row 0 to the last row.
pub open spec fn spec_up(cursor: int, len: int) -> int {
    if cursor > 0 {
        cursor - 1
    } else {
        len - 1
    }
}

/// Cursor position after `n` "down" steps.
pub open spec fn down_n(cursor: int, len: int, n: nat) -> int
    decreases n,
{
    if n == 0 {
        cursor
    } else {
        down_n(spec_down(cursor, len), len, (n - 1) as nat)
    }
}

/// Cursor position after `n` "up" steps.
pub open spec fn up_n(cursor: int, len: int, n: nat) -> int
    decreases n,
{
    if n == 0 {
        cursor
    } else {
        up_n(spec_up(cursor, len), len, (n - 1) as nat)
    }
}

proof fn lemma_down_n_shift(cursor: int, len: int, n: nat)
    requires
        0 <= cursor < len,
        n <= len,
    ensures
        down_n(cursor, len, n) == if cursor + n < len {
            cursor + n
        } else {
            cursor + n - len
        },
    decreases n,
{
    if n > 0 {
        lemma_down_n_shift(spec_down(cursor, len), len, (n - 1) as nat);
    }
}

proof fn lemma_up_n_shift(cursor: int, len: int, n: nat)
    requires
        0 <= cursor < len,
        n <= len,
    ensures
        up_n(cursor, len, n) == if cursor - n >= 0 {
            cursor - n
        } else {
            cursor - n + len
        },
    decreases n,
{
    if n > 0 {
        lemma_up_n_shift(spec_up(cursor, len), len, (n - 1) as nat);
    }
}

/// Cursor navigation is cyclic with period equal to the list length: stepping
/// "down" once per candidate brings the cursor back to where it started, and
/// likewise for "up".
pub proof fn lemma_cursor_cycle(cursor: int, len: int)
    requires
        0 <= cursor < len,
    ensures
        down_n(cursor, len, len as nat) == cursor,
        up_n(cursor, len, len as nat) == cursor,
{
    lemma_down_n_shift(cursor, len, len as nat);
    lemma_up_n_shift(cursor, len, len as nat);
}

fn step_down(cursor: usize, len: usize) -> (r: usize)
    requires
        cursor < len,
    ensures
        r < len,
        r == spec_down(cursor as int, len as int),
{
    if cursor + 1 < len {
        cursor + 1
    } else {
        0
    }
}

fn step_up(cursor: usize, len: usize) -> (r: usize)
    requires
        cursor < len,
    ensures
        r < len,
        r == spec_up(cursor as int, len as int),
{
    if cursor > 0 {
        cursor - 1
    } else {
        len - 1
    }
}

/// How a root-selection loop ends.
#[derive(Clone, Copy, Debug, PartialEq, Eq)]
pub enum RootOutcome {
    /// The highlighted candidate was chosen.
    Pick(usize),
    /// The user backed out; the caller falls back to the current directory.
    Cancel,
}

/// Single-select list state for picking the scan root among the immediate
/// subdirectories of the working directory.
pub struct RootSelect {
    /// Number of candidate rows shown.
    pub len: usize,
    /// The highlighted row; meaningful only when `len > 0`.
    pub cursor: usize,
}

impl RootSelect {
    pub open spec fn wf(self) -> bool {
        self.len > 0 ==> self.cursor < self.len
    }

    pub fn new(len: usize) -> (s: Self)
        ensures
            s.wf(),
            s.len == len,
            s.cursor == 0,
    {
        RootSelect { len, cursor: 0 }
    }

    /// Applies one key event. `None` means the loop goes on; `Some` ends it.
    /// Up and Down wrap around; Enter picks the highlighted row (a no-op on an
    /// empty list); the letter `q` cancels; everything else is ignored.
    pub fn on_key(&mut self, key: Key) -> (r: Option<RootOutcome>)
        requires
            old(self).wf(),
        ensures
            final(self).wf(),
            final(self).len == old(self).len,
            match key {
                Key::Up => r is None && final(self).cursor as int == if old(self).len == 0 {
                    old(self).cursor as int
                } else {
                    spec_up(old(self).cursor as int, old(self).len as int)
                },
                Key::Down => r is None && final(self).cursor as int == if old(self).len == 0 {
                    old(self).cursor as int
                } else {
                    spec_down(old(self).cursor as int, old(self).len as int)
                },
                Key::Enter => *final(self) == *old(self) && if old(self).len > 0 {
                    r == Some(RootOutcome::Pick(old(self).cursor))
                } else {
                    r is None
                },
                Key::Letter(c) => *final(self) == *old(self) && if c == 'q' {
                    r == Some(RootOutcome::Cancel)
                } else {
                    r is None
                },
                _ => *final(self) == *old(self) && r is None,
            },
    {
        match key {
            Key::Up => {
                if self.len > 0 {
                    self.cursor = step_up(self.cursor, self.len);
                }
                None
            }
            Key::Down => {
                if self.len > 0 {
                    self.cursor = step_down(self.cursor, self.len);
                }
                None
            }
            Key::Enter => {
                if self.len > 0 {
                    Some(RootOutcome::Pick(self.cursor))
                } else {
                    None
                }
            }
            Key::Letter(c) => {
                if c == 'q' {
                    Some(RootOutcome::Cancel)
                } else {
                    None
                }
            }
            _ => None,
        }
    }
}

/// The marks after flipping the one at index `i`.
pub open spec fn toggled(marks: Seq<bool>, i: int) -> Seq<bool> {
    marks.update(i, !marks[i])
}

/// Flipping the same mark twice restores the original marks.
pub proof fn lemma_toggle_twice(marks: Seq<bool>, i: int)
    requires
        0 <= i < marks.len(),
    ensures
        toggled(toggled(marks, i), i) =~= marks,
{
}

/// The indices marked `true` among the first `n` marks, in increasing order.
pub open spec fn chosen_upto(marks: Seq<bool>, n: int) -> Seq<usize>
    decreases n,
{
    if n <= 0 {
        Seq::empty()
    } else if marks[n - 1] {
        chosen_upto(marks, n - 1).push((n - 1) as usize)
    } else {
        chosen_upto(marks, n - 1)
    }
}

/// The indices marked `true`, in increasing order.
pub open spec fn chosen_indices(marks: Seq<bool>) -> Seq<usize> {
    chosen_upto(marks, marks.len() as int)
}

proof fn lemma_chosen_upto(marks: Seq<bool>, n: int)
    requires
        0 <= n <= marks.len(),
        marks.len() <= usize::MAX,
    ensures
        forall|k: int|
            0 <= k < chosen_upto(marks, n).len() ==> chosen_upto(marks, n)[k] < n
                && marks[chosen_upto(marks, n)[k] as int],
        forall|a: int, b: int|
            0 <= a < b < chosen_upto(marks, n).len() ==> chosen_upto(marks, n)[a] < chosen_upto(
                marks,
                n,
            )[b],
        forall|u: usize| u < n && marks[u as int] ==> chosen_upto(marks, n).contains(u),
    decreases n,
{
    if n > 0 {
        lemma_chosen_upto(marks, n - 1);
        let prev = chosen_upto(marks, n - 1);
        let cur = chosen_upto(marks, n);
        if marks[n - 1] {
            assert(cur == prev.push((n - 1) as usize));
            assert forall|k: int| 0 <= k < cur.len() implies cur[k] < n
                && marks[cur[k] as int] by {
                if k < prev.len() {
                    assert(cur[k] == prev[k]);
                } else {
                    assert(cur[k] == (n - 1) as usize);
                }
            }
            assert forall|a: int, b: int| 0 <= a < b < cur.len() implies cur[a] < cur[b] by {
                if b < prev.len() {
                    assert(cur[a] == prev[a] && cur[b] == prev[b]);
                } else {
                    assert(cur[a] == prev[a] && cur[b] == (n - 1) as usize);
                }
            }
        } else {
            assert(cur == prev);
        }
        assert forall|u: usize| u < n && marks[u as int] implies chosen_upto(marks, n).contains(
            u,
        ) by {
            if u < n - 1 {
                let k = choose|k: int|
                    0 <= k < chosen_upto(marks, n - 1).len() && (#[trigger] chosen_upto(
                        marks,
                        n - 1,
                    )[k]) == u;
                assert(chosen_upto(marks, n)[k] == u);
            } else {
                assert(chosen_upto(marks, n).last() == u);
            }
        }
    }
}

/// What a commit returns: the marked indices come out in increasing index
/// order — the original scan order — no matter in what order the marks were
/// toggled; and an index comes out exactly when its mark is set.
pub proof fn lemma_commit_order(marks: Seq<bool>)
    requires
        marks.len() <= usize::MAX,
    ensures
        forall|a: int, b: int|
            0 <= a < b < chosen_indices(marks).len() ==> chosen_indices(marks)[a] < chosen_indices(
                marks,
            )[b],
        forall|u: usize| #[trigger] chosen_indices(marks).contains(u) <==> u < marks.len()
            && marks[u as int],
{
    lemma_chosen_upto(marks, marks.len() as int);
    assert forall|u: usize| chosen_indices(marks).contains(u) implies u < marks.len()
        && marks[u as int] by {
        let k = choose|k: int|
            0 <= k < chosen_indices(marks).len() && (#[trigger] chosen_indices(marks)[k]) == u;
    }
}

/// Multi-select (checkbox) list state over the scanned target paths.
pub struct TargetSelect {
    /// The highlighted row; meaningful only when there are marks.
    pub cursor: usize,
    /// One "marked for deletion" flag per candidate row.
    pub marks: Vec<bool>,
}

impl TargetSelect {
    pub open spec fn len(self) -> nat {
        self.marks@.len()
    }

    pub open spec fn wf(self) -> bool {
        self.len() > 0 ==> self.cursor < self.len()
    }

    /// Fresh state: cursor on the first row, nothing marked.
    pub fn new(len: usize) -> (s: Self)
        ensures
            s.wf(),
            s.len() == len,
            s.cursor == 0,
            forall|i: int| 0 <= i < len ==> !s.marks@[i],
    {
        let mut marks: Vec<bool> = Vec::new();
        let mut i: usize = 0;
        while i < len
            invariant
                i <= len,
                marks@.len() == i,
                forall|k: int| 0 <= k < i ==> !marks@[k],
            decreases len - i,
        {
            marks.push(false);
            i = i + 1;
        }
        TargetSelect { cursor: 0, marks }
    }

    /// Applies one key event. `None` means the loop goes on; `Some(picks)`
    /// ends it with the indices to delete. Up and Down wrap around; Space
    /// flips the mark under the cursor without moving it; the letter `d`
    /// commits the marked indices in increasing order; the letter `q`
    /// abandons the selection and yields no indices at all, whatever was
    /// marked; everything else is ignored. An empty candidate list responds
    /// to the quit key alone: every other key, the commit key included, is
    /// a no-op there.
    pub fn on_key(&mut self, key: Key) -> (r: Option<Vec<usize>>)
        requires
            old(self).wf(),
        ensures
            final(self).wf(),
            final(self).len() == old(self).len(),
            match key {
                Key::Up => r is None && final(self).marks == old(self).marks
                    && final(self).cursor as int == if old(self).len() == 0 {
                    old(self).cursor as int
                } else {
                    spec_up(old(self).cursor as int, old(self).len() as int)
                },
                Key::Down => r is None && final(self).marks == old(self).marks
                    && final(self).cursor as int == if old(self).len() == 0 {
                    old(self).cursor as int
                } else {
                    spec_down(old(self).cursor as int, old(self).len() as int)
                },
                Key::Space => r is None && final(self).cursor == old(self).cursor
                    && if old(self).len() == 0 {
                    final(self).marks == old(self).marks
                } else {
                    final(self).marks@ =~= toggled(old(self).marks@, old(self).cursor as int)
                },
                Key::Letter(c) => *final(self) == *old(self) && if c == 'd' && old(self).len()
                    > 0 {
                    r matches Some(picks) && picks@ == chosen_indices(old(self).marks@)
                } else if c == 'q' {
                    r matches Some(picks) && picks@ =~= Seq::<usize>::empty()
                } else {
                    r is None
                },
                _ => *final(self) == *old(self) && r is None,
            },
    {
        let len: usize = self.marks.len();
        match key {
            Key::Up => {
                if len > 0 {
                    self.cursor = step_up(self.cursor, len);
                }
                None
            }
            Key::Down => {
                if len > 0 {
                    self.cursor = step_down(self.cursor, len);
                }
                None
            }
            Key::Space => {
                if len > 0 {
                    let flipped = !self.marks[self.cursor];
                    self.marks.set(self.cursor, flipped);
                }
                None
            }
            Key::Letter(c) => {
                if c == 'd' {
                    if len > 0 {
                        Some(self.commit())
                    } else {
                        None
                    }
                } else if c == 'q' {
                    Some(Vec::new())
                } else {
                    None
                }
            }
            _ => None,
        }
    }

    /// The marked indices, in increasing order.
    pub fn commit(&self) -> (r: Vec<usize>)
        ensures
            r@ == chosen_indices(self.marks@),
    {
        let mut out: Vec<usize> = Vec::new();
        let mut i: usize = 0;
        while i < self.marks.len()
            invariant
                i <= self.marks@.len(),
                out@ == chosen_upto(self.marks@, i as int),
            decreases self.marks@.len() - i,
        {
            if self.marks[i] {
                out.push(i);
            }
            i = i + 1;
        }
        out
    }
}

/// The scanned paths at the committed indices, kept in the order the picks
/// come in: committing hands this function its indices in increasing order,
/// so the paths come out in the original scan order, whatever order their
/// marks were toggled in.
pub fn gather_paths(items: &Vec<Vec<String>>, picks: &Vec<usize>) -> (r: Vec<Vec<String>>)
    requires
        forall|k: int| 0 <= k < picks@.len() ==> picks@[k] < items@.len(),
    ensures
        r.deep_view().len() == picks@.len(),
        forall|k: int|
            0 <= k < picks@.len() ==> r.deep_view()[k] == items.deep_view()[picks@[k] as int],
{
    let mut r: Vec<Vec<String>> = Vec::new();
    let mut i: usize = 0;
    while i < picks.len()
        invariant
            i <= picks@.len(),
            forall|k: int| 0 <= k < picks@.len() ==> picks@[k] < items@.len(),
            r.deep_view().len() == i,
            forall|k: int|
                0 <= k < i ==> r.deep_view()[k] == items.deep_view()[picks@[k] as int],
        decreases picks@.len() - i,
    {
        let idx: usize = picks[i];
        let path = clone_path(&items[idx]);
        proof {
            assert(items.deep_view()[idx as int] == items@[idx as int].deep_view());
        }
        let ghost dv0 = r.deep_view();
        r.push(path);
        proof {
            assert(r.deep_view() =~= dv0.push(path.deep_view()));
        }
        i = i + 1;
    }
    r
}

/// Byte order: `a` sorts no later than `b` when its bytes compare no
/// greater, byte by byte, a missing byte coming first.
pub open spec fn bytes_le(a: Seq<u8>, b: Seq<u8>) -> bool
    decreases a.len(),
{
    if a.len() == 0 {
        true
    } else if b.len() == 0 {
        false
    } else if a[0] < b[0] {
        true
    } else if a[0] > b[0] {
        false
    } else {
        bytes_le(a.drop_first(), b.drop_first())
    }
}

/// Name order: byte order over the UTF-8 encoding of the two names, the
/// order a directory listing shows them in.
pub open spec fn name_le(a: Seq<char>, b: Seq<char>) -> bool {
    bytes_le(vstd::utf8::encode_utf8(a), vstd::utf8::encode_utf8(b))
}

/// Every adjacent pair of names is in order.
pub open spec fn names_sorted(s: Seq<Seq<char>>) -> bool {
    forall|k: int| 0 <= k && k + 1 < s.len() ==> name_le(#[trigger] s[k], s[k + 1])
}

proof fn lemma_bytes_le_total(a: Seq<u8>, b: Seq<u8>)
    ensures
        bytes_le(a, b) || bytes_le(b, a),
    decreases a.len(),
{
    if a.len() > 0 && b.len() > 0 && a[0] == b[0] {
        lemma_bytes_le_total(a.drop_first(), b.drop_first());
    }
}

proof fn lemma_bytes_le_skip(a: Seq<u8>, b: Seq<u8>, i: int)
    requires
        0 <= i <= a.len(),
        i <= b.len(),
        forall|k: int| 0 <= k < i ==> a[k] == b[k],
    ensures
        bytes_le(a, b) == bytes_le(a.skip(i), b.skip(i)),
    decreases i,
{
    if i > 0 {
        assert(a[0] == b[0]);
        lemma_bytes_le_skip(a.drop_first(), b.drop_first(), i - 1);
        assert(a.drop_first().skip(i - 1) =~= a.skip(i));
        assert(b.drop_first().skip(i - 1) =~= b.skip(i));
    } else {
        assert(a.skip(0) =~= a);
        assert(b.skip(0) =~= b);
    }
}

proof fn lemma_sorted_insert(s: Seq<Seq<char>>, pos: int, x: Seq<char>)
    requires
        names_sorted(s),
        0 <= pos <= s.len(),
        forall|k: int| 0 <= k < pos ==> name_le(#[trigger] s[k], x),
        pos < s.len() ==> !name_le(s[pos], x),
    ensures
        names_sorted(s.insert(pos, x)),
{
    s.insert_ensures(pos, x);
    if pos < s.len() {
        lemma_bytes_le_total(vstd::utf8::encode_utf8(s[pos]), vstd::utf8::encode_utf8(x));
    }
    assert forall|k: int| 0 <= k && k + 1 < s.insert(pos, x).len() implies name_le(
        #[trigger] s.insert(pos, x)[k],
        s.insert(pos, x)[k + 1],
    ) by {
        if k + 1 < pos {
            assert(s.insert(pos, x)[k] == s[k]);
            assert(s.insert(pos, x)[k + 1] == s[k + 1]);
            assert(name_le(s[k], s[k + 1]));
        } else if k + 1 == pos {
            assert(s.insert(pos, x)[k] == s[k]);
            assert(s.insert(pos, x)[k + 1] == x);
            assert(name_le(s[k], x));
        } else if k == pos {
            assert(s.insert(pos, x)[k] == x);
            assert(s.insert(pos, x)[k + 1] == s[k]);
            assert(name_le(x, s[k]));
        } else {
            assert(s.insert(pos, x)[k] == s[k - 1]);
            assert(s.insert(pos, x)[k + 1] == s[k]);
            assert(name_le(s[k - 1], s[k]));
        }
    }
}

fn bytes_le_exec(a: &Vec<u8>, b: &Vec<u8>) -> (r: bool)
    ensures
        r == bytes_le(a@, b@),
{
    let mut i: usize = 0;
    loop
        invariant_except_break
            i <= a@.len(),
            i <= b@.len(),
            forall|k: int| 0 <= k < i ==> a@[k] == b@[k],
        ensures
            i <= a@.len(),
            i <= b@.len(),
            forall|k: int| 0 <= k < i ==> a@[k] == b@[k],
            i < a@.len() && i < b@.len() ==> a@[i as int] != b@[i as int],
        decreases a@.len() - i,
    {
        if i < a.len() && i < b.len() {
            if a[i] == b[i] {
                i = i + 1;
            } else {
                break ;
            }
        } else {
            break ;
        }
    }
    proof {
        lemma_bytes_le_skip(a@, b@, i as int);
    }
    if i == a.len() {
        proof {
            assert(a@.skip(i as int).len() == 0);
        }
        true
    } else if i == b.len() {
        proof {
            assert(b@.skip(i as int).len() == 0);
            assert(a@.skip(i as int).len() > 0);
        }
        false
    } else {
        proof {
            assert(a@.skip(i as int)[0] == a@[i as int]);
            assert(b@.skip(i as int)[0] == b@[i as int]);
        }
        a[i] < b[i]
    }
}

/// True exactly when `a` sorts no later than `b` in name order.
pub fn name_le_exec(a: &String, b: &String) -> (r: bool)
    ensures
        r == name_le(a@, b@),
{
    let av = a.as_str().as_bytes_vec();
    let bv = b.as_str().as_bytes_vec();
    bytes_le_exec(&av, &bv)
}

/// The candidate names in sorted name order: the same names, rearranged,
/// the way the root selector lists the working directory's subdirectories.
pub fn sort_names(names: &Vec<String>) -> (r: Vec<String>)
    ensures
        r@.to_multiset() == names@.to_multiset(),
        names_sorted(r.deep_view()),
{
    broadcast use vstd::seq_lib::group_to_multiset_ensures;

    let mut out: Vec<String> = Vec::new();
    let mut i: usize = 0;
    while i < names.len()
        invariant
            i <= names@.len(),
            out@.to_multiset() == names@.subrange(0, i as int).to_multiset(),
            names_sorted(out.deep_view()),
        decreases names@.len() - i,
    {
        let name = names[i].clone();
        proof {
            assert(cloned::<String>(names@[i as int], name));
            assert(name == names@[i as int]);
        }
        let ghost out0 = out@;
        let ghost dv0 = out.deep_view();
        let ghost nm = name@;
        let mut pos: usize = 0;
        loop
            invariant_except_break
                out@ == out0,
                dv0 == out.deep_view(),
                nm == name@,
                pos <= out0.len(),
                forall|k: int| 0 <= k < pos ==> name_le(dv0[k], nm),
            ensures
                out@ == out0,
                pos <= out0.len(),
                forall|k: int| 0 <= k < pos ==> name_le(dv0[k], nm),
                pos < out0.len() ==> !name_le(dv0[pos as int], nm),
            decreases out0.len() - pos,
        {
            if pos < out.len() {
                proof {
                    assert(dv0[pos as int] == out0[pos as int]@);
                }
                if name_le_exec(&out[pos], &name) {
                    pos = pos + 1;
                } else {
                    break ;
                }
            } else {
                break ;
            }
        }
        out.insert(pos, name);
        proof {
            let x = names@[i as int];
            assert(out@ == out0.insert(pos as int, x));
            vstd::seq_lib::to_multiset_insert(out0, pos as int, x);
            assert(out@.to_multiset() =~= out0.to_multiset().insert(x));
            vstd::seq_lib::to_multiset_build(names@.subrange(0, i as int), x);
            assert(names@.subrange(0, i + 1) =~= names@.subrange(0, i as int).push(x));
            assert(out@.to_multiset() =~= names@.subrange(0, i + 1).to_multiset());
            let dv = out.deep_view();
            assert(dv.len() == out@.len());
            assert(forall|k: int| 0 <= k < out@.len() ==> dv[k] == #[trigger] out@[k]@);
            assert(dv0.len() == out0.len());
            assert(forall|k: int| 0 <= k < out0.len() ==> dv0[k] == #[trigger] out0[k]@);
            assert(x@ == nm);
            assert(dv =~= dv0.insert(pos as int, nm));
            lemma_sorted_insert(dv0, pos as int, nm);
        }
        i = i + 1;
    }
    proof {
        assert(names@.subrange(0, names@.len() as int) =~= names@);
    }
    out
}

} // verus!

