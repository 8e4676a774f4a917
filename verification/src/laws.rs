//! The decoder's laws: what decoding owes every input of a given shape,
//! stated over the model and proved once and for all.

use vstd::prelude::*;

use crate::decode::{
    action_id, action_marker, decode_spec, empty_acc, first_marker, header_line, init_state,
    is_action_line, lemma_first_marker, lemma_keys_distinct, marker_at, run_lines, step, truthy,
    Acc, DecSt, IniView,
};
use crate::launch::{is_placeholder, strip_placeholders};
use crate::text::{
    first_eq, keeps, kept_lines, lemma_first_eq_is, lemma_keep_all, lemma_split_prefix,
    lemma_split_single, nl_free, split_lines,
};

verus! {

/// The header line is kept by comment filtering, opens no action section,
/// and carries no key/value pair.
proof fn lemma_header_inert()
    ensures
        keeps(header_line()),
        !is_action_line(header_line()),
        first_eq(header_line()) == header_line().len(),
        header_line().len() == 15,
        nl_free(header_line()),
{
    let h = header_line();
    reveal_strlit("[Desktop Entry]");
    assert(h.len() == 15);
    assert forall|k: int| 0 <= k < 15 implies h[k] != '=' && h[k] != '\n' && h[k] != 'A' by {
        if k == 0 {
        } else if k == 1 {
        } else if k == 2 {
        } else if k == 3 {
        } else if k == 4 {
        } else if k == 5 {
        } else if k == 6 {
        } else if k == 7 {
        } else if k == 8 {
        } else if k == 9 {
        } else if k == 10 {
        } else if k == 11 {
        } else if k == 12 {
        } else if k == 13 {
        } else {
            assert(k == 14);
        }
    }
    lemma_first_eq_is(h, 15);
    assert forall|i: int| !marker_at(h, i) by {
        reveal_strlit("Action ");
        if 0 <= i && i + 7 <= 15 {
            assert(h.subrange(i, i + 7)[0] == h[i]);
            assert(action_marker()[0] == 'A');
        }
    }
    assert(h[0] == '[');
}

/// Where the first `=` of a line built as prefix-plus-value falls, and what
/// key and value the decoder reads off it.
proof fn lemma_kv_split(p: Seq<char>, x: Seq<char>)
    requires
        p.len() > 0,
        p[p.len() - 1] == '=',
        forall|k: int| 0 <= k < p.len() - 1 ==> p[k] != '=',
    ensures
        first_eq(p + x) == p.len() - 1,
        (p + x).subrange(0, p.len() - 1) == p.take(p.len() - 1),
        (p + x).subrange(p.len() as int, (p + x).len() as int) == x,
        (p + x).len() == p.len() + x.len(),
{
    let l = p + x;
    assert forall|k: int| 0 <= k < p.len() - 1 implies l[k] != '=' by {
        assert(l[k] == p[k]);
    }
    assert(l[p.len() - 1] == '=');
    lemma_first_eq_is(l, p.len() - 1);
    assert(l.subrange(0, p.len() - 1) =~= p.take(p.len() - 1));
    assert(l.subrange(p.len() as int, l.len() as int) =~= x);
}

/// Ground facts about the `Name=` prefix.
proof fn lemma_name_prefix()
    ensures
        "Name="@.len() == 5,
        "Name="@[0] == 'N',
        "Name="@[4] == '=',
        forall|k: int| 0 <= k < 4 ==> "Name="@[k] != '=',
        "Name="@.take(4) == "Name"@,
        nl_free("Name="@),
{
    reveal_strlit("Name=");
    reveal_strlit("Name");
    let p = "Name="@;
    assert forall|k: int| 0 <= k < 5 implies p[k] != '\n' && (k < 4 ==> p[k] != '=') by {
        if k == 0 {
        } else if k == 1 {
        } else if k == 2 {
        } else if k == 3 {
        } else {
            assert(k == 4);
        }
    }
    assert(p.take(4) =~= "Name"@);
}

/// Ground facts about the `Exec=` prefix.
proof fn lemma_exec_prefix()
    ensures
        "Exec="@.len() == 5,
        "Exec="@[0] == 'E',
        "Exec="@[4] == '=',
        forall|k: int| 0 <= k < 4 ==> "Exec="@[k] != '=',
        "Exec="@.take(4) == "Exec"@,
        nl_free("Exec="@),
{
    reveal_strlit("Exec=");
    reveal_strlit("Exec");
    let p = "Exec="@;
    assert forall|k: int| 0 <= k < 5 implies p[k] != '\n' && (k < 4 ==> p[k] != '=') by {
        if k == 0 {
        } else if k == 1 {
        } else if k == 2 {
        } else if k == 3 {
        } else {
            assert(k == 4);
        }
    }
    assert(p.take(4) =~= "Exec"@);
}

/// Ground facts about the `Terminal=` prefix.
proof fn lemma_terminal_prefix()
    ensures
        "Terminal="@.len() == 9,
        "Terminal="@[0] == 'T',
        "Terminal="@[8] == '=',
        forall|k: int| 0 <= k < 8 ==> "Terminal="@[k] != '=',
        "Terminal="@.take(8) == "Terminal"@,
        nl_free("Terminal="@),
{
    reveal_strlit("Terminal=");
    reveal_strlit("Terminal");
    let p = "Terminal="@;
    assert forall|k: int| 0 <= k < 9 implies p[k] != '\n' && (k < 8 ==> p[k] != '=') by {
        if k == 0 {
        } else if k == 1 {
        } else if k == 2 {
        } else if k == 3 {
        } else if k == 4 {
        } else if k == 5 {
        } else if k == 6 {
        } else if k == 7 {
        } else {
            assert(k == 8);
        }
    }
    assert(p.take(8) =~= "Terminal"@);
}

/// Concatenating newline-free texts stays newline-free.
proof fn lemma_nl_free_concat(a: Seq<char>, b: Seq<char>)
    requires
        nl_free(a),
        nl_free(b),
    ensures
        nl_free(a + b),
{
    assert forall|k: int| 0 <= k < (a + b).len() implies (a + b)[k] != '\n' by {
        if k < a.len() {
            assert((a + b)[k] == a[k]);
        } else {
            assert((a + b)[k] == b[k - a.len()]);
        }
    }
}

/// The raw text of an entry whose kept lines are exactly the given ones.
pub open spec fn joined(ls: Seq<Seq<char>>) -> Seq<char>
    decreases ls.len(),
{
    if ls.len() == 0 {
        Seq::empty()
    } else if ls.len() == 1 {
        ls[0]
    } else {
        ls[0] + seq!['\n'] + joined(ls.drop_first())
    }
}

/// Joining newline-free lines splits back into exactly those lines.
proof fn lemma_joined_splits(ls: Seq<Seq<char>>)
    requires
        ls.len() > 0,
        forall|i: int| 0 <= i < ls.len() ==> nl_free(ls[i]),
    ensures
        split_lines(joined(ls)) == ls,
    decreases ls.len(),
{
    if ls.len() == 1 {
        lemma_split_single(ls[0]);
        assert(seq![ls[0]] =~= ls);
    } else {
        assert forall|i: int| 0 <= i < ls.drop_first().len() implies nl_free(
            ls.drop_first()[i],
        ) by {
            assert(ls.drop_first()[i] == ls[i + 1]);
        }
        lemma_joined_splits(ls.drop_first());
        lemma_split_prefix(ls[0], joined(ls.drop_first()));
        assert(seq![ls[0]] + ls.drop_first() =~= ls);
    }
}

/// Decoding text that holds the header, one name, and one command line, and
/// nothing else, yields exactly that record, with the terminal requirement
/// defaulted to false and no actions.
pub proof fn law_minimal_entry(x: Seq<char>, y: Seq<char>)
    requires
        nl_free(x),
        nl_free(y),
        !is_action_line("Name="@ + x),
        !is_action_line("Exec="@ + y),
    ensures
        decode_spec(joined(seq![header_line(), "Name="@ + x, "Exec="@ + y])) == Some(
            IniView { name: x, command: y, terminal: false, actions: Map::empty() },
        ),
{
    lemma_header_inert();
    lemma_name_prefix();
    lemma_exec_prefix();
    lemma_keys_distinct();
    let nline = "Name="@ + x;
    let eline = "Exec="@ + y;
    let ls = seq![header_line(), nline, eline];
    let t = joined(ls);
    lemma_nl_free_concat("Name="@, x);
    lemma_nl_free_concat("Exec="@, y);
    assert forall|i: int| 0 <= i < ls.len() implies nl_free(ls[i]) by {}
    lemma_joined_splits(ls);
    assert forall|i: int| 0 <= i < ls.len() implies keeps(ls[i]) by {
        assert(nline[0] == 'N');
        assert(eline[0] == 'E');
    }
    lemma_keep_all(ls);
    assert(kept_lines(t) == ls);
    lemma_kv_split("Name="@, x);
    lemma_kv_split("Exec="@, y);
    let s0 = init_state();
    let s1 = DecSt {
        base: Acc { name: Some(x), command: None, terminal: None },
        cur: None,
        acts: Map::empty(),
    };
    let s2 = DecSt {
        base: Acc { name: Some(x), command: Some(y), terminal: None },
        cur: None,
        acts: Map::empty(),
    };
    assert(step(s0, header_line()) == Some(s0));
    assert(step(s0, nline) == Some(s1)) by {
        assert(nline.subrange(0, first_eq(nline)) == "Name"@);
        assert(nline.subrange(first_eq(nline) + 1, nline.len() as int) == x);
    }
    assert(step(s1, eline) == Some(s2)) by {
        assert(eline.subrange(0, first_eq(eline)) == "Exec"@);
        assert(eline.subrange(first_eq(eline) + 1, eline.len() as int) == y);
    }
    let d1 = ls.drop_first();
    let d2 = d1.drop_first();
    let d3 = d2.drop_first();
    assert(d1[0] == nline && d2[0] == eline);
    assert(d3 =~= Seq::<Seq<char>>::empty());
    assert(run_lines(s2, d3) == Some(s2));
    assert(run_lines(s1, d2) == Some(s2));
    assert(run_lines(s0, d1) == Some(s2));
    assert(run_lines(s0, ls) == Some(s2));
    assert(decode_spec(t) == Some(
        IniView { name: x, command: y, terminal: false, actions: Map::empty() },
    ));
}

/// A `Terminal=` line coerces any value to a boolean and never errs:
/// decoding text with the header, a name, a command, and one terminal line
/// yields the record whose terminal flag is the value's coercion — true for
/// the case variants of `true`, false for everything else, garbage included.
pub proof fn law_terminal_coerces(x: Seq<char>, y: Seq<char>, v: Seq<char>)
    requires
        nl_free(x),
        nl_free(y),
        nl_free(v),
        !is_action_line("Name="@ + x),
        !is_action_line("Exec="@ + y),
        !is_action_line("Terminal="@ + v),
    ensures
        decode_spec(joined(seq![header_line(), "Name="@ + x, "Exec="@ + y, "Terminal="@ + v]))
            == Some(IniView { name: x, command: y, terminal: truthy(v), actions: Map::empty() }),
{
    lemma_header_inert();
    lemma_name_prefix();
    lemma_exec_prefix();
    lemma_terminal_prefix();
    lemma_keys_distinct();
    let nline = "Name="@ + x;
    let eline = "Exec="@ + y;
    let tline = "Terminal="@ + v;
    let ls = seq![header_line(), nline, eline, tline];
    let t = joined(ls);
    lemma_nl_free_concat("Name="@, x);
    lemma_nl_free_concat("Exec="@, y);
    lemma_nl_free_concat("Terminal="@, v);
    assert forall|i: int| 0 <= i < ls.len() implies nl_free(ls[i]) by {}
    lemma_joined_splits(ls);
    assert forall|i: int| 0 <= i < ls.len() implies keeps(ls[i]) by {
        assert(nline[0] == 'N');
        assert(eline[0] == 'E');
        assert(tline[0] == 'T');
    }
    lemma_keep_all(ls);
    assert(kept_lines(t) == ls);
    lemma_kv_split("Name="@, x);
    lemma_kv_split("Exec="@, y);
    lemma_kv_split("Terminal="@, v);
    let s0 = init_state();
    let s1 = DecSt {
        base: Acc { name: Some(x), command: None, terminal: None },
        cur: None,
        acts: Map::empty(),
    };
    let s2 = DecSt {
        base: Acc { name: Some(x), command: Some(y), terminal: None },
        cur: None,
        acts: Map::empty(),
    };
    let s3 = DecSt {
        base: Acc { name: Some(x), command: Some(y), terminal: Some(truthy(v)) },
        cur: None,
        acts: Map::empty(),
    };
    assert(step(s0, header_line()) == Some(s0));
    assert(step(s0, nline) == Some(s1)) by {
        assert(nline.subrange(0, first_eq(nline)) == "Name"@);
        assert(nline.subrange(first_eq(nline) + 1, nline.len() as int) == x);
    }
    assert(step(s1, eline) == Some(s2)) by {
        assert(eline.subrange(0, first_eq(eline)) == "Exec"@);
        assert(eline.subrange(first_eq(eline) + 1, eline.len() as int) == y);
    }
    assert(step(s2, tline) == Some(s3)) by {
        assert(tline.subrange(0, first_eq(tline)) == "Terminal"@);
        assert(tline.subrange(first_eq(tline) + 1, tline.len() as int) == v);
    }
    let d1 = ls.drop_first();
    let d2 = d1.drop_first();
    let d3 = d2.drop_first();
    let d4 = d3.drop_first();
    assert(d1[0] == nline && d2[0] == eline && d3[0] == tline);
    assert(d4 =~= Seq::<Seq<char>>::empty());
    assert(run_lines(s3, d4) == Some(s3));
    assert(run_lines(s2, d3) == Some(s3));
    assert(run_lines(s1, d2) == Some(s3));
    assert(run_lines(s0, d1) == Some(s3));
    assert(run_lines(s0, ls) == Some(s3));
}

/// Ground facts about an action-header line built around an identifier: it
/// opens an action section for exactly that identifier.
proof fn lemma_action_line(a: Seq<char>)
    ensures
        is_action_line("[Desktop Action "@ + a + seq![']']),
        action_id("[Desktop Action "@ + a + seq![']']) == a,
        keeps("[Desktop Action "@ + a + seq![']']),
        nl_free(a) ==> nl_free("[Desktop Action "@ + a + seq![']']),
{
    reveal_strlit("[Desktop Action ");
    reveal_strlit("Action ");
    let p = "[Desktop Action "@;
    let l = p + a + seq![']'];
    assert(p.len() == 16);
    assert(l.len() == 17 + a.len());
    assert(l.subrange(9, 16) =~= action_marker());
    assert(marker_at(l, 9));
    assert forall|k: int| 0 <= k < 9 implies !marker_at(l, k) by {
        if marker_at(l, k) {
            assert(l.subrange(k, k + 7)[0] == l[k]);
            assert(l[k] == 'A');
            assert(l[k] == p[k]);
            if k == 0 {
            } else if k == 1 {
            } else if k == 2 {
            } else if k == 3 {
            } else if k == 4 {
            } else if k == 5 {
            } else if k == 6 {
            } else if k == 7 {
            } else {
                assert(k == 8);
            }
        }
    }
    lemma_first_marker(l);
    assert(first_marker(l) == 9);
    assert(l.subrange(16, l.len() - 1) =~= a);
    assert(l[0] == '[');
    if nl_free(a) {
        assert forall|k: int| 0 <= k < l.len() implies l[k] != '\n' by {
            if k < 16 {
                assert(l[k] == p[k]);
                if k == 0 {
                } else if k == 1 {
                } else if k == 2 {
                } else if k == 3 {
                } else if k == 4 {
                } else if k == 5 {
                } else if k == 6 {
                } else if k == 7 {
                } else if k == 8 {
                } else if k == 9 {
                } else if k == 10 {
                } else if k == 11 {
                } else if k == 12 {
                } else if k == 13 {
                } else if k == 14 {
                } else {
                    assert(k == 15);
                }
            } else if k < 16 + a.len() {
                assert(l[k] == a[k - 16]);
            } else {
                assert(l[k] == ']');
            }
        }
    }
}

/// An action section populates the actions mapping under its own identifier,
/// independently of the base section: its `Name=` line fills the action's
/// name and leaves the base fields as they were.
pub proof fn law_action_section(x: Seq<char>, y: Seq<char>, a: Seq<char>, n: Seq<char>)
    requires
        nl_free(x),
        nl_free(y),
        nl_free(a),
        nl_free(n),
        !is_action_line("Name="@ + x),
        !is_action_line("Exec="@ + y),
        !is_action_line("Name="@ + n),
    ensures
        decode_spec(
            joined(
                seq![
                    header_line(),
                    "Name="@ + x,
                    "Exec="@ + y,
                    "[Desktop Action "@ + a + seq![']'],
                    "Name="@ + n,
                ],
            ),
        ) == Some(
            IniView {
                name: x,
                command: y,
                terminal: false,
                actions: Map::empty().insert(
                    a,
                    Acc { name: Some(n), command: None, terminal: None },
                ),
            },
        ),
{
    lemma_header_inert();
    lemma_name_prefix();
    lemma_exec_prefix();
    lemma_keys_distinct();
    lemma_action_line(a);
    let nline = "Name="@ + x;
    let eline = "Exec="@ + y;
    let aline = "[Desktop Action "@ + a + seq![']'];
    let iline = "Name="@ + n;
    let ls = seq![header_line(), nline, eline, aline, iline];
    let t = joined(ls);
    lemma_nl_free_concat("Name="@, x);
    lemma_nl_free_concat("Exec="@, y);
    lemma_nl_free_concat("Name="@, n);
    assert forall|i: int| 0 <= i < ls.len() implies nl_free(ls[i]) by {}
    lemma_joined_splits(ls);
    assert forall|i: int| 0 <= i < ls.len() implies keeps(ls[i]) by {
        assert(nline[0] == 'N');
        assert(eline[0] == 'E');
        assert(iline[0] == 'N');
    }
    lemma_keep_all(ls);
    assert(kept_lines(t) == ls);
    lemma_kv_split("Name="@, x);
    lemma_kv_split("Exec="@, y);
    lemma_kv_split("Name="@, n);
    let s0 = init_state();
    let s1 = DecSt {
        base: Acc { name: Some(x), command: None, terminal: None },
        cur: None,
        acts: Map::empty(),
    };
    let s2 = DecSt {
        base: Acc { name: Some(x), command: Some(y), terminal: None },
        cur: None,
        acts: Map::empty(),
    };
    let s3 = DecSt {
        base: Acc { name: Some(x), command: Some(y), terminal: None },
        cur: Some(a),
        acts: Map::empty().insert(a, empty_acc()),
    };
    let s4 = DecSt {
        base: Acc { name: Some(x), command: Some(y), terminal: None },
        cur: Some(a),
        acts: Map::empty().insert(a, Acc { name: Some(n), command: None, terminal: None }),
    };
    assert(step(s0, header_line()) == Some(s0));
    assert(step(s0, nline) == Some(s1)) by {
        assert(nline.subrange(0, first_eq(nline)) == "Name"@);
        assert(nline.subrange(first_eq(nline) + 1, nline.len() as int) == x);
    }
    assert(step(s1, eline) == Some(s2)) by {
        assert(eline.subrange(0, first_eq(eline)) == "Exec"@);
        assert(eline.subrange(first_eq(eline) + 1, eline.len() as int) == y);
    }
    assert(step(s2, aline) == Some(s3)) by {
        assert(!s2.acts.dom().contains(a));
    }
    assert(step(s3, iline) == Some(s4)) by {
        assert(iline.subrange(0, first_eq(iline)) == "Name"@);
        assert(iline.subrange(first_eq(iline) + 1, iline.len() as int) == n);
        assert(s3.acts.dom().contains(a));
        assert(s3.acts[a] == empty_acc());
        assert(s3.acts.insert(a, Acc { name: Some(n), command: None, terminal: None })
            =~= s4.acts);
    }
    let d1 = ls.drop_first();
    let d2 = d1.drop_first();
    let d3 = d2.drop_first();
    let d4 = d3.drop_first();
    let d5 = d4.drop_first();
    assert(d1[0] == nline && d2[0] == eline && d3[0] == aline && d4[0] == iline);
    assert(d5 =~= Seq::<Seq<char>>::empty());
    assert(run_lines(s4, d5) == Some(s4));
    assert(run_lines(s4, d4.drop_first()) == Some(s4));
    assert(run_lines(s3, d4) == Some(s4));
    assert(run_lines(s2, d3) == Some(s4));
    assert(run_lines(s1, d2) == Some(s4));
    assert(run_lines(s0, d1) == Some(s4));
    assert(run_lines(s0, ls) == Some(s4));
}

/// Scanning lines from a state still in the base section aborts on a
/// base-section `NoDisplay` line whose value coerces to true.
proof fn lemma_abort(st: DecSt, ls: Seq<Seq<char>>, i: int)
    requires
        0 <= i < ls.len(),
        st.cur is None,
        forall|j: int| 0 <= j < i ==> !is_action_line(ls[j]),
        !is_action_line(ls[i]),
        first_eq(ls[i]) < ls[i].len(),
        ls[i].subrange(0, first_eq(ls[i])) == "NoDisplay"@,
        truthy(ls[i].subrange(first_eq(ls[i]) + 1, ls[i].len() as int)),
    ensures
        run_lines(st, ls) is None,
    decreases i,
{
    if i == 0 {
        assert(step(st, ls[0]) is None);
    } else {
        match step(st, ls[0]) {
            None => {},
            Some(s2) => {
                assert(s2.cur is None);
                assert forall|j: int| 0 <= j < i - 1 implies !is_action_line(
                    ls.drop_first()[j],
                ) by {
                    assert(ls.drop_first()[j] == ls[j + 1]);
                }
                assert(ls.drop_first()[i - 1] == ls[i]);
                lemma_abort(s2, ls.drop_first(), i - 1);
            },
        }
    }
}

/// A base-section `NoDisplay` whose value coerces to true suppresses the
/// whole entry, whatever valid fields stand before or after it.
pub proof fn law_no_display_suppresses(t: Seq<char>, i: int)
    requires
        0 <= i < kept_lines(t).len(),
        forall|j: int| 0 <= j < i ==> !is_action_line(kept_lines(t)[j]),
        !is_action_line(kept_lines(t)[i]),
        first_eq(kept_lines(t)[i]) < kept_lines(t)[i].len(),
        kept_lines(t)[i].subrange(0, first_eq(kept_lines(t)[i])) == "NoDisplay"@,
        truthy(
            kept_lines(t)[i].subrange(
                first_eq(kept_lines(t)[i]) + 1,
                kept_lines(t)[i].len() as int,
            ),
        ),
    ensures
        decode_spec(t) is None,
{
    if kept_lines(t).len() > 0 && kept_lines(t)[0] == header_line() {
        lemma_abort(init_state(), kept_lines(t), i);
    }
}

/// Decoding text whose first kept line is not exactly the header always
/// yields absence, empty text included.
pub proof fn law_header_required(t: Seq<char>)
    requires
        kept_lines(t).len() == 0 || kept_lines(t)[0] != header_line(),
    ensures
        decode_spec(t) is None,
{
}

/// Argument-vector construction strips every reserved placeholder token:
/// none survives. That all other tokens keep their order is the construction
/// itself, the order-preserving filter `strip_placeholders`.
pub proof fn law_placeholders_stripped(ts: Seq<Seq<char>>)
    ensures
        forall|k: int|
            0 <= k < strip_placeholders(ts).len() ==> !is_placeholder(strip_placeholders(ts)[k]),
    decreases ts.len(),
{
    if ts.len() > 0 {
        law_placeholders_stripped(ts.drop_last());
        let rest = strip_placeholders(ts.drop_last());
        if !is_placeholder(ts.last()) {
            assert forall|k: int|
                0 <= k < strip_placeholders(ts).len() implies !is_placeholder(
                strip_placeholders(ts)[k],
            ) by {
                if k < rest.len() {
                    assert(strip_placeholders(ts)[k] == rest[k]);
                } else {
                    assert(strip_placeholders(ts)[k] == ts.last());
                }
            }
        }
    }
}

} // verus!
