//! The mathematical model of the desktop entry decoder: what one raw entry
//! text means as a structured record.
//!
//! The decoder is a line-oriented state machine. Comment lines are discarded,
//! the first remaining line must be the `[Desktop Entry]` header, and every
//! further line either opens an action section, contributes a key/value pair
//! to the open action or to the base section, or is ignored. A `NoDisplay`
//! key whose value coerces to true aborts the whole decode.

use vstd::prelude::*;

use crate::text::{first_eq, kept_lines};

verus! {

/// One in-progress accumulator: the recognized fields of the base section or
/// of one action section, each absent until a line sets it.
#[verifier::ext_equal]
pub ghost struct Acc {
    pub name: Option<Seq<char>>,
    pub command: Option<Seq<char>>,
    pub terminal: Option<bool>,
}

/// The full scanning state: the base accumulator, the identifier of the open
/// action section if any, and the accumulators of all action sections seen.
#[verifier::ext_equal]
pub ghost struct DecSt {
    pub base: Acc,
    pub cur: Option<Seq<char>>,
    pub acts: Map<Seq<char>, Acc>,
}

/// A fully decoded entry: display name, command line, terminal requirement,
/// and the accumulators of its action sections keyed by identifier.
#[verifier::ext_equal]
pub ghost struct IniView {
    pub name: Seq<char>,
    pub command: Seq<char>,
    pub terminal: bool,
    pub actions: Map<Seq<char>, Acc>,
}

pub open spec fn empty_acc() -> Acc {
    Acc { name: None, command: None, terminal: None }
}

pub open spec fn init_state() -> DecSt {
    DecSt { base: empty_acc(), cur: None, acts: Map::empty() }
}

/// Boolean coercion of a value: any case variant of `true` means true, and
/// every other value (including malformed ones) means false.
pub open spec fn truthy(v: Seq<char>) -> bool {
    &&& v.len() == 4
    &&& (v[0] == 't' || v[0] == 'T')
    &&& (v[1] == 'r' || v[1] == 'R')
    &&& (v[2] == 'u' || v[2] == 'U')
    &&& (v[3] == 'e' || v[3] == 'E')
}

/// The literal header that the first kept line must be.
pub open spec fn header_line() -> Seq<char> {
    "[Desktop Entry]"@
}

/// The substring whose first occurrence marks an action-section header.
pub open spec fn action_marker() -> Seq<char> {
    "Action "@
}

/// The marker occurs in `line` at position `i`.
pub open spec fn marker_at(line: Seq<char>, i: int) -> bool {
    &&& 0 <= i
    &&& i + action_marker().len() <= line.len()
    &&& line.subrange(i, i + action_marker().len() as int) == action_marker()
}

/// Position of the first occurrence of the marker, or `line.len()` if there
/// is none.
pub open spec fn first_marker(line: Seq<char>) -> int
    decreases line.len(),
{
    if marker_at(line, 0) {
        0
    } else if line.len() == 0 {
        0
    } else {
        1 + first_marker(line.drop_first())
    }
}

proof fn lemma_marker_shift(line: Seq<char>, k: int)
    requires
        line.len() > 0,
        0 <= k,
    ensures
        marker_at(line.drop_first(), k) <==> marker_at(line, k + 1),
{
    let m = action_marker().len() as int;
    if marker_at(line.drop_first(), k) {
        assert(line.subrange(k + 1, k + 1 + m) =~= line.drop_first().subrange(k, k + m));
    }
    if marker_at(line, k + 1) {
        assert(line.drop_first().subrange(k, k + m) =~= line.subrange(k + 1, k + 1 + m));
    }
}

pub proof fn lemma_first_marker(line: Seq<char>)
    ensures
        0 <= first_marker(line) <= line.len(),
        forall|k: int| 0 <= k < first_marker(line) ==> !marker_at(line, k),
        (exists|k: int| marker_at(line, k)) ==> marker_at(line, first_marker(line)),
    decreases line.len(),
{
    reveal_strlit("Action ");
    if marker_at(line, 0) {
    } else if line.len() == 0 {
        assert forall|k: int| !marker_at(line, k) by {}
    } else {
        lemma_first_marker(line.drop_first());
        let fm = first_marker(line);
        assert forall|k: int| 0 <= k < fm implies !marker_at(line, k) by {
            if k > 0 {
                lemma_marker_shift(line, k - 1);
            }
        }
        if exists|k: int| marker_at(line, k) {
            let k = choose|k: int| marker_at(line, k);
            assert(k != 0);
            assert(k >= 1);
            lemma_marker_shift(line, k - 1);
            assert(marker_at(line.drop_first(), k - 1));
            lemma_marker_shift(line, first_marker(line.drop_first()));
        }
    }
}

/// The line opens an action section: it holds the marker somewhere, with at
/// least one character after the first occurrence, so that one trailing
/// character (meant to be the closing bracket) can be trimmed.
pub open spec fn is_action_line(line: Seq<char>) -> bool {
    &&& exists|i: int| marker_at(line, i)
    &&& first_marker(line) + action_marker().len() < line.len()
}

/// The identifier of the action section the line opens: everything after the
/// first occurrence of the marker, less one trailing character.
pub open spec fn action_id(line: Seq<char>) -> Seq<char> {
    line.subrange(first_marker(line) + action_marker().len(), line.len() - 1)
}

/// The four recognized keys are pairwise different literals.
pub proof fn lemma_keys_distinct()
    ensures
        "Name"@ != "Exec"@,
        "Name"@ != "Terminal"@,
        "Name"@ != "NoDisplay"@,
        "Exec"@ != "Terminal"@,
        "Exec"@ != "NoDisplay"@,
        "Terminal"@ != "NoDisplay"@,
{
    reveal_strlit("Name");
    reveal_strlit("Exec");
    reveal_strlit("Terminal");
    reveal_strlit("NoDisplay");
    assert("Name"@[0] == 'N' && "Exec"@[0] == 'E');
    assert("Name"@.len() == 4 && "Exec"@.len() == 4 && "Terminal"@.len() == 8 && "NoDisplay"@.len()
        == 9);
}

/// One recognized key/value pair applied to an accumulator; unrecognized
/// keys leave it unchanged.
pub open spec fn apply_kv(acc: Acc, key: Seq<char>, val: Seq<char>) -> Acc {
    if key == "Name"@ {
        Acc { name: Some(val), ..acc }
    } else if key == "Exec"@ {
        Acc { command: Some(val), ..acc }
    } else if key == "Terminal"@ {
        Acc { terminal: Some(truthy(val)), ..acc }
    } else {
        acc
    }
}

/// One line of the scan. `None` means the whole decode aborts: a base-section
/// `NoDisplay` whose value coerces to true.
pub open spec fn step(st: DecSt, line: Seq<char>) -> Option<DecSt> {
    if is_action_line(line) {
        let id = action_id(line);
        Some(
            DecSt {
                cur: Some(id),
                acts: if st.acts.dom().contains(id) {
                    st.acts
                } else {
                    st.acts.insert(id, empty_acc())
                },
                ..st
            },
        )
    } else if first_eq(line) < line.len() {
        let key = line.subrange(0, first_eq(line));
        let val = line.subrange(first_eq(line) + 1, line.len() as int);
        match st.cur {
            Some(id) => Some(
                DecSt {
                    acts: if st.acts.dom().contains(id) {
                        st.acts.insert(id, apply_kv(st.acts[id], key, val))
                    } else {
                        st.acts
                    },
                    ..st
                },
            ),
            None => if key == "NoDisplay"@ && truthy(val) {
                None
            } else {
                Some(DecSt { base: apply_kv(st.base, key, val), ..st })
            },
        }
    } else {
        Some(st)
    }
}

/// The scan over a sequence of lines, from the given state.
pub open spec fn run_lines(st: DecSt, ls: Seq<Seq<char>>) -> Option<DecSt>
    decreases ls.len(),
{
    if ls.len() == 0 {
        Some(st)
    } else {
        match step(st, ls[0]) {
            Some(s2) => run_lines(s2, ls.drop_first()),
            None => None,
        }
    }
}

pub proof fn lemma_run_lines_concat(st: DecSt, a: Seq<Seq<char>>, b: Seq<Seq<char>>)
    ensures
        run_lines(st, a + b) == match run_lines(st, a) {
            Some(s2) => run_lines(s2, b),
            None => None::<DecSt>,
        },
    decreases a.len(),
{
    if a.len() == 0 {
        assert(a + b =~= b);
    } else {
        assert((a + b)[0] == a[0]);
        assert((a + b).drop_first() =~= a.drop_first() + b);
        match step(st, a[0]) {
            Some(s2) => {
                lemma_run_lines_concat(s2, a.drop_first(), b);
            },
            None => {},
        }
    }
}

pub proof fn lemma_run_lines_snoc(st: DecSt, ls: Seq<Seq<char>>, l: Seq<char>)
    ensures
        run_lines(st, ls.push(l)) == match run_lines(st, ls) {
            Some(s2) => step(s2, l),
            None => None::<DecSt>,
        },
{
    lemma_run_lines_concat(st, ls, seq![l]);
    assert(ls.push(l) =~= ls + seq![l]);
    match run_lines(st, ls) {
        Some(s2) => {
            assert(seq![l].drop_first() =~= Seq::<Seq<char>>::empty());
            assert(run_lines(s2, seq![l]) == step(s2, l)) by {
                match step(s2, l) {
                    Some(s3) => {
                        assert(run_lines(s3, seq![l].drop_first()) == Some(s3));
                    },
                    None => {},
                }
            }
        },
        None => {},
    }
}

pub proof fn lemma_run_lines_none_prefix(st: DecSt, ls: Seq<Seq<char>>, i: int)
    requires
        0 <= i <= ls.len(),
        run_lines(st, ls.take(i)) is None,
    ensures
        run_lines(st, ls) is None,
{
    lemma_run_lines_concat(st, ls.take(i), ls.skip(i));
    assert(ls.take(i) + ls.skip(i) =~= ls);
}

/// Finalization: terminal defaults to false; a base section that never set
/// both name and exec yields no record, while incomplete actions are kept.
pub open spec fn finish(base: Acc, acts: Map<Seq<char>, Acc>) -> Option<IniView> {
    if base.name is Some && base.command is Some {
        Some(
            IniView {
                name: base.name->0,
                command: base.command->0,
                terminal: match base.terminal {
                    Some(b) => b,
                    None => false,
                },
                actions: acts,
            },
        )
    } else {
        None
    }
}

/// What decoding one raw entry text yields: the record, or absence when the
/// header is missing, the entry is suppressed, or name or exec never appear.
pub open spec fn decode_spec(t: Seq<char>) -> Option<IniView> {
    let ls = kept_lines(t);
    if ls.len() > 0 && ls[0] == header_line() {
        match run_lines(init_state(), ls) {
            Some(st) => finish(st.base, st.acts),
            None => None,
        }
    } else {
        None
    }
}

} // verus!
