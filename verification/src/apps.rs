//! The decoded entry types and the entry decoder itself.

use vstd::prelude::*;

use crate::decode::{
    action_id, apply_kv, decode_spec, empty_acc, finish, header_line, init_state, is_action_line,
    lemma_first_marker, lemma_keys_distinct, lemma_run_lines_none_prefix, lemma_run_lines_snoc,
    marker_at, run_lines, step, truthy, Acc, DecSt, IniView,
};
use crate::text::{
    find_nl, first_eq, first_nl, kept_lines, keep_lines, lemma_first_nl, lemma_keep_push,
    split_kv, split_lines, str_eq,
};

verus! {

/// One named sub-action of an entry. Its fields are filled progressively
/// while scanning; a field no line set stays absent.
#[derive(Debug)]
pub struct IniAction {
    pub name: Option<String>,
    pub command: Option<String>,
    pub terminal: Option<bool>,
}

impl View for IniAction {
    type V = Acc;

    open spec fn view(&self) -> Acc {
        Acc {
            name: self.name.deep_view(),
            command: self.command.deep_view(),
            terminal: self.terminal,
        }
    }
}

impl DeepView for IniAction {
    type V = Acc;

    open spec fn deep_view(&self) -> Acc {
        self.view()
    }
}

/// The action sections of one entry, keyed by identifier; the decoder keeps
/// the identifiers distinct.
pub type Actions = Vec<(String, IniAction)>;

/// The mapping from action identifier to accumulator that an action list
/// holds.
pub open spec fn actions_map(s: Seq<(String, IniAction)>) -> Map<Seq<char>, Acc>
    decreases s.len(),
{
    if s.len() == 0 {
        Map::empty()
    } else {
        actions_map(s.drop_last()).insert(s.last().0@, s.last().1@)
    }
}

/// No two pairs of the list share an identifier.
pub open spec fn distinct_keys(s: Seq<(String, IniAction)>) -> bool {
    forall|j: int, k: int| 0 <= j < k < s.len() ==> s[j].0@ != s[k].0@
}

pub proof fn lemma_actions_map_contains(s: Seq<(String, IniAction)>, k: Seq<char>)
    ensures
        actions_map(s).dom().contains(k) <==> exists|j: int| 0 <= j < s.len() && s[j].0@ == k,
    decreases s.len(),
{
    if s.len() > 0 {
        lemma_actions_map_contains(s.drop_last(), k);
        if s.last().0@ == k {
            assert(s[s.len() - 1].0@ == k);
        }
        if exists|j: int| 0 <= j < s.len() && s[j].0@ == k {
            let j = choose|j: int| 0 <= j < s.len() && s[j].0@ == k;
            if j < s.len() - 1 {
                assert(s.drop_last()[j] == s[j]);
            }
        }
        if exists|j: int| 0 <= j < s.drop_last().len() && s.drop_last()[j].0@ == k {
            let j = choose|j: int| 0 <= j < s.drop_last().len() && s.drop_last()[j].0@ == k;
            assert(s[j].0@ == k);
        }
    }
}

pub proof fn lemma_actions_map_get(s: Seq<(String, IniAction)>, j: int)
    requires
        0 <= j < s.len(),
        forall|k: int| j < k < s.len() ==> s[k].0@ != s[j].0@,
    ensures
        actions_map(s).dom().contains(s[j].0@),
        actions_map(s)[s[j].0@] == s[j].1@,
    decreases s.len(),
{
    if j == s.len() - 1 {
    } else {
        assert forall|k: int| j < k < s.drop_last().len() implies s.drop_last()[k].0@
            != s.drop_last()[j].0@ by {
            assert(s.drop_last()[k] == s[k]);
        }
        lemma_actions_map_get(s.drop_last(), j);
        assert(s.last().0@ != s[j].0@);
    }
}

pub proof fn lemma_actions_map_push(s: Seq<(String, IniAction)>, p: (String, IniAction))
    ensures
        actions_map(s.push(p)) == actions_map(s).insert(p.0@, p.1@),
{
    assert(s.push(p).drop_last() =~= s);
    assert(s.push(p).last() == p);
}

pub proof fn lemma_actions_map_update(s: Seq<(String, IniAction)>, j: int, p: (String, IniAction))
    requires
        0 <= j < s.len(),
        distinct_keys(s),
        p.0@ == s[j].0@,
    ensures
        actions_map(s.update(j, p)) == actions_map(s).insert(p.0@, p.1@),
    decreases s.len(),
{
    let t = s.update(j, p);
    if j == s.len() - 1 {
        assert(t.drop_last() =~= s.drop_last());
        assert(t.last() == p);
        assert(actions_map(t) =~= actions_map(s).insert(p.0@, p.1@));
    } else {
        assert(distinct_keys(s.drop_last())) by {
            assert forall|a: int, b: int|
                0 <= a < b < s.drop_last().len() implies s.drop_last()[a].0@
                != s.drop_last()[b].0@ by {
                assert(s.drop_last()[a] == s[a]);
                assert(s.drop_last()[b] == s[b]);
            }
        }
        assert(s.drop_last()[j] == s[j]);
        lemma_actions_map_update(s.drop_last(), j, p);
        assert(t.drop_last() =~= s.drop_last().update(j, p));
        assert(t.last() == s.last());
        assert(s.last().0@ != p.0@) by {
            assert(s[j].0@ != s[s.len() - 1].0@);
        }
        assert(actions_map(t) =~= actions_map(s).insert(p.0@, p.1@));
    }
}

/// A fully decoded, valid entry: both `Name` and `Exec` appeared in the base
/// section, and the entry was not suppressed.
#[derive(Debug)]
pub struct Ini {
    pub name: String,
    pub command: String,
    pub terminal: bool,
    pub actions: Actions,
}

impl View for Ini {
    type V = IniView;

    open spec fn view(&self) -> IniView {
        IniView {
            name: self.name@,
            command: self.command@,
            terminal: self.terminal,
            actions: actions_map(self.actions@),
        }
    }
}

impl DeepView for Ini {
    type V = IniView;

    open spec fn deep_view(&self) -> IniView {
        self.view()
    }
}

/// First position of an identifier in the action list, if it is there.
fn find_key(acts: &Actions, key: &str) -> (r: Option<usize>)
    ensures
        r matches Some(j) ==> j < acts@.len() && acts@[j as int].0@ == key@,
        r is None ==> forall|j: int| 0 <= j < acts@.len() ==> acts@[j].0@ != key@,
{
    let n = acts.len();
    let mut i: usize = 0;
    while i < n
        invariant
            n == acts@.len(),
            i <= n,
            forall|j: int| 0 <= j < i ==> acts@[j].0@ != key@,
        decreases n - i,
    {
        if str_eq(acts[i].0.as_str(), key) {
            return Some(i);
        }
        i += 1;
    }
    None
}

/// One raw entry's text, as read from a `.desktop` file.
pub struct ApplicationEntry(String);

impl View for ApplicationEntry {
    type V = Seq<char>;

    closed spec fn view(&self) -> Seq<char> {
        self.0@
    }
}

impl ApplicationEntry {
    pub fn new(entry_inner: String) -> (r: Self)
        ensures
            r@ == entry_inner@,
    {
        ApplicationEntry(entry_inner)
    }

    /// A fresh accumulator with every field absent.
    fn body(&self) -> (r: IniAction)
        ensures
            r@ == empty_acc(),
    {
        IniAction { name: None, command: None, terminal: None }
    }

    /// Boolean coercion: any case variant of `true` is true, and every other
    /// value, `false` or malformed alike, is false.
    fn str_as_bool(&self, s: &str) -> (r: bool)
        ensures
            r == truthy(s@),
    {
        let n = s.unicode_len();
        if n != 4 {
            return false;
        }
        let c0 = s.get_char(0);
        let c1 = s.get_char(1);
        let c2 = s.get_char(2);
        let c3 = s.get_char(3);
        (c0 == 't' || c0 == 'T') && (c1 == 'r' || c1 == 'R') && (c2 == 'u' || c2 == 'U') && (c3
            == 'e' || c3 == 'E')
    }

    /// Recognizes an action-section header by the first occurrence of the
    /// literal `Action ` anywhere in the line and hands back the identifier:
    /// everything after the occurrence, less one trailing character (meant to
    /// strip the closing bracket). A line where nothing follows the
    /// occurrence leaves no character to trim and opens no section.
    fn is_action<'a>(&self, line: &'a str) -> (r: Option<&'a str>)
        ensures
            r is Some <==> is_action_line(line@),
            r matches Some(id) ==> id@ == action_id(line@),
    {
        proof {
            reveal_strlit("Action ");
            lemma_first_marker(line@);
        }
        let n = line.unicode_len();
        if n >= 7 {
            let mut i: usize = 0;
            while i <= n - 7
                invariant
                    7 <= n == line@.len(),
                    i <= n - 6,
                    forall|k: int| 0 <= k < i ==> !marker_at(line@, k),
                decreases n - i,
            {
                let cand = line.substring_char(i, i + 7);
                if str_eq(cand, "Action ") {
                    proof {
                        reveal_strlit("Action ");
                        assert(cand@ == line@.subrange(i as int, i as int + 7));
                        assert(marker_at(line@, i as int));
                        lemma_first_marker(line@);
                        assert(crate::decode::first_marker(line@) == i);
                    }
                    if i + 7 < n {
                        let id = line.substring_char(i + 7, n - 1);
                        return Some(id);
                    } else {
                        return None;
                    }
                }
                proof {
                    reveal_strlit("Action ");
                    assert(cand@ == line@.subrange(i as int, i as int + 7));
                    assert(!marker_at(line@, i as int));
                }
                i += 1;
            }
            proof {
                assert forall|k: int| !marker_at(line@, k) by {
                    reveal_strlit("Action ");
                    if 0 <= k && k + 7 <= n {
                        assert(k <= n - 7 < i);
                    }
                }
            }
            None
        } else {
            proof {
                assert forall|k: int| !marker_at(line@, k) by {
                    reveal_strlit("Action ");
                }
            }
            None
        }
    }

    /// Splits the raw text into lines, discards comment lines, and checks
    /// that the first remaining line is exactly the `[Desktop Entry]` header;
    /// any other first line rejects the whole text.
    fn lines<'a>(&'a self) -> (r: Option<Vec<&'a str>>)
        ensures
            r is Some <==> (kept_lines(self@).len() > 0 && kept_lines(self@)[0]
                == header_line()),
            r matches Some(v) ==> v.deep_view() == kept_lines(self@),
    {
        let s: &str = self.0.as_str();
        let n = s.unicode_len();
        let mut res: Vec<&'a str> = Vec::new();
        let ghost mut seen: Seq<Seq<char>> = Seq::empty();
        let mut pos: usize = 0;
        proof {
            assert(s@.subrange(0, n as int) =~= s@);
            assert(Seq::<Seq<char>>::empty() + split_lines(s@) =~= split_lines(s@));
        }
        loop
            invariant
                n == s@.len(),
                s@ == self@,
                pos <= n,
                split_lines(s@) == seen + split_lines(s@.subrange(pos as int, n as int)),
                res.deep_view() == keep_lines(seen),
            decreases n - pos,
        {
            let ghost seen0 = seen;
            let end = find_nl(s, pos, n);
            let line = s.substring_char(pos, end);
            let ghost rest = s@.subrange(pos as int, n as int);
            proof {
                lemma_first_nl(rest);
                assert(first_nl(rest) == end - pos);
                assert(line@ =~= rest.subrange(0, end - pos));
            }
            let keep_it = if line.unicode_len() >= 1 {
                line.get_char(0) != '#'
            } else {
                true
            };
            proof {
                lemma_keep_push(seen, line@);
            }
            if keep_it {
                res.push(line);
                proof {
                    assert(res.deep_view() =~= keep_lines(seen.push(line@)));
                }
            }
            proof {
                seen = seen.push(line@);
            }
            if end == n {
                proof {
                    assert(line@ =~= rest);
                    assert(split_lines(rest) == seq![rest]);
                    assert(seen0 + seq![rest] =~= seen0.push(rest));
                    assert(split_lines(s@) =~= seen);
                    assert(kept_lines(s@) == res.deep_view());
                }
                if res.len() == 0 {
                    return None;
                }
                let first: &str = res[0];
                proof {
                    assert(first@ == res.deep_view()[0]);
                }
                if str_eq(first, "[Desktop Entry]") {
                    return Some(res);
                } else {
                    return None;
                }
            }
            proof {
                assert(split_lines(rest) == seq![rest.subrange(0, end - pos)] + split_lines(
                    rest.subrange(end - pos + 1, rest.len() as int),
                ));
                assert(rest.subrange(end - pos + 1, rest.len() as int) =~= s@.subrange(
                    end + 1,
                    n as int,
                ));
                assert(split_lines(s@) =~= seen + split_lines(s@.subrange(end + 1, n as int)));
            }
            pos = end + 1;
        }
    }

    /// Applies one raw line to an action accumulator: the line's first `=`
    /// splits it into key and value, a recognized key sets its field, and a
    /// line without `=` or with an unrecognized key changes nothing.
    fn decode_kv_hash(&self, line: &str, action: &mut IniAction)
        ensures
            final(action)@ == if first_eq(line@) < line@.len() {
                apply_kv(
                    old(action)@,
                    line@.subrange(0, first_eq(line@)),
                    line@.subrange(first_eq(line@) + 1, line@.len() as int),
                )
            } else {
                old(action)@
            },
    {
        match split_kv(line) {
            Some((key, val)) => {
                proof {
                    lemma_keys_distinct();
                }
                if str_eq(key, "Name") {
                    action.name = Some(val.to_owned());
                } else if str_eq(key, "Exec") {
                    action.command = Some(val.to_owned());
                } else if str_eq(key, "Terminal") {
                    action.terminal = Some(self.str_as_bool(val));
                }
                proof {
                    assert(action@ =~= apply_kv(old(action)@, key@, val@));
                }
            },
            None => {},
        }
    }

    /// Finalization: an unset terminal defaults to false; a base section that
    /// set both name and exec yields the record, and otherwise there is no
    /// entry. Incomplete actions are kept as they stand.
    fn decode_finished(&self, body: IniAction, actions: Actions) -> (r: Option<Ini>)
        ensures
            r.deep_view() == finish(body@, actions_map(actions@)),
            r matches Some(i) ==> i.actions@ == actions@,
    {
        let ghost bodyv = body@;
        let ghost actsv = actions@;
        let terminal = match body.terminal {
            Some(b) => b,
            None => false,
        };
        match (body.name, body.command) {
            (Some(name), Some(command)) => {
                let r = Some(Ini { name, command, terminal, actions });
                proof {
                    assert(r.deep_view() matches Some(v) && v =~= finish(
                        bodyv,
                        actions_map(actsv),
                    )->0);
                }
                r
            },
            _ => None,
        }
    }

    /// Decodes one raw entry text into its structured record. Absence means
    /// a missing or wrong header, a truthy `NoDisplay` in the base section,
    /// or a base section that never set both `Name` and `Exec`.
    pub fn decode(&self) -> (r: Option<Ini>)
        ensures
            r.deep_view() == decode_spec(self@),
            r matches Some(i) ==> distinct_keys(i.actions@),
    {
        let lines_v: Vec<&str> = match self.lines() {
            Some(v) => v,
            None => {
                return None;
            },
        };
        let ghost kept = kept_lines(self@);
        let mut body = self.body();
        let mut curr_act: Option<usize> = None;
        let mut h_acts: Actions = Vec::new();
        let n = lines_v.len();
        proof {
            assert(kept.take(0) =~= Seq::<Seq<char>>::empty());
            assert(actions_map(h_acts@) =~= Map::<Seq<char>, Acc>::empty());
            assert(DecSt { base: body@, cur: None::<Seq<char>>, acts: actions_map(h_acts@) }
                =~= init_state());
            assert(lines_v.deep_view().len() == lines_v@.len());
        }
        let mut idx: usize = 0;
        while idx < n
            invariant
                n == lines_v@.len(),
                idx <= n,
                lines_v.deep_view() == kept,
                kept == kept_lines(self@),
                kept.len() == n,
                kept.len() > 0 && kept[0] == header_line(),
                distinct_keys(h_acts@),
                match curr_act {
                    Some(j) => (j as int) < h_acts@.len(),
                    None => true,
                },
                run_lines(init_state(), kept.take(idx as int)) == Some(
                    DecSt {
                        base: body@,
                        cur: match curr_act {
                            Some(j) => Some(h_acts@[j as int].0@),
                            None => None::<Seq<char>>,
                        },
                        acts: actions_map(h_acts@),
                    },
                ),
            decreases n - idx,
        {
            let line: &str = lines_v[idx];
            let ghost pre = DecSt {
                base: body@,
                cur: match curr_act {
                    Some(j) => Some(h_acts@[j as int].0@),
                    None => None::<Seq<char>>,
                },
                acts: actions_map(h_acts@),
            };
            proof {
                assert(lines_v.deep_view()[idx as int] == lines_v@[idx as int]@);
                assert(line@ == kept[idx as int]);
                assert(kept.take(idx as int + 1) =~= kept.take(idx as int).push(
                    kept[idx as int],
                ));
                lemma_run_lines_snoc(init_state(), kept.take(idx as int), kept[idx as int]);
            }
            match self.is_action(line) {
                Some(act) => {
                    proof {
                        lemma_actions_map_contains(h_acts@, act@);
                    }
                    match find_key(&h_acts, act) {
                        Some(j) => {
                            curr_act = Some(j);
                            proof {
                                assert(actions_map(h_acts@).dom().contains(act@));
                                assert(step(pre, line@) matches Some(st2) && st2 =~= DecSt {
                                    base: body@,
                                    cur: Some(h_acts@[j as int].0@),
                                    acts: actions_map(h_acts@),
                                });
                            }
                        },
                        None => {
                            proof {
                                assert(!actions_map(h_acts@).dom().contains(act@));
                            }
                            let ghost ha0 = h_acts@;
                            let pair = (act.to_owned(), self.body());
                            let ghost gpair = pair;
                            h_acts.push(pair);
                            let j = h_acts.len() - 1;
                            curr_act = Some(j);
                            proof {
                                lemma_actions_map_push(ha0, gpair);
                                assert(h_acts@[j as int].0@ == act@);
                                assert(distinct_keys(h_acts@)) by {
                                    assert forall|a: int, b: int|
                                        0 <= a < b < h_acts@.len() implies h_acts@[a].0@
                                        != h_acts@[b].0@ by {
                                        if b < j {
                                            assert(h_acts@[a] == ha0[a]);
                                            assert(h_acts@[b] == ha0[b]);
                                        } else {
                                            assert(h_acts@[a] == ha0[a]);
                                        }
                                    }
                                }
                                assert(step(pre, line@) matches Some(st2) && st2 =~= DecSt {
                                    base: body@,
                                    cur: Some(h_acts@[j as int].0@),
                                    acts: actions_map(h_acts@),
                                });
                            }
                        },
                    }
                },
                None => {
                    match curr_act {
                        Some(j) => {
                            let ghost ha0 = h_acts@;
                            let pair = h_acts.remove(j);
                            let (key_s, mut act1) = pair;
                            let ghost k0 = key_s@;
                            let ghost a0 = act1@;
                            proof {
                                assert(k0 == ha0[j as int].0@);
                                assert(a0 == ha0[j as int].1@);
                                lemma_actions_map_contains(ha0, k0);
                                lemma_actions_map_get(ha0, j as int);
                            }
                            self.decode_kv_hash(line, &mut act1);
                            h_acts.insert(j, (key_s, act1));
                            proof {
                                let pair2 = h_acts@[j as int];
                                assert(pair2.0@ == k0);
                                assert(h_acts@ =~= ha0.update(j as int, pair2));
                                lemma_actions_map_update(ha0, j as int, pair2);
                                assert(distinct_keys(h_acts@)) by {
                                    assert forall|a: int, b: int|
                                        0 <= a < b < h_acts@.len() implies h_acts@[a].0@
                                        != h_acts@[b].0@ by {
                                        assert(h_acts@[a].0@ == ha0[a].0@);
                                        assert(h_acts@[b].0@ == ha0[b].0@);
                                    }
                                }
                                if first_eq(line@) < line@.len() {
                                    assert(pair2.1@ == apply_kv(
                                        a0,
                                        line@.subrange(0, first_eq(line@)),
                                        line@.subrange(first_eq(line@) + 1, line@.len() as int),
                                    ));
                                    assert(step(pre, line@) matches Some(st2) && st2 =~= DecSt {
                                        base: body@,
                                        cur: Some(h_acts@[j as int].0@),
                                        acts: actions_map(h_acts@),
                                    });
                                } else {
                                    assert(actions_map(h_acts@) =~= actions_map(ha0)) by {
                                        assert(h_acts@ =~= ha0.update(j as int, pair2));
                                        assert(pair2.1@ == a0);
                                        lemma_actions_map_update(ha0, j as int, pair2);
                                        lemma_actions_map_get(ha0, j as int);
                                        assert(actions_map(ha0).insert(k0, a0) =~= actions_map(
                                            ha0,
                                        ));
                                    }
                                    assert(step(pre, line@) matches Some(st2) && st2 =~= DecSt {
                                        base: body@,
                                        cur: Some(h_acts@[j as int].0@),
                                        acts: actions_map(h_acts@),
                                    });
                                }
                            }
                        },
                        None => {
                            match split_kv(line) {
                                Some((key, val)) => {
                                    proof {
                                        lemma_keys_distinct();
                                    }
                                    if str_eq(key, "NoDisplay") {
                                        if self.str_as_bool(val) {
                                            proof {
                                                assert(step(pre, line@) is None);
                                                assert(run_lines(
                                                    init_state(),
                                                    kept.take(idx as int + 1),
                                                ) is None);
                                                lemma_run_lines_none_prefix(
                                                    init_state(),
                                                    kept,
                                                    idx as int + 1,
                                                );
                                                assert(decode_spec(self@) is None);
                                            }
                                            return None;
                                        }
                                        proof {
                                            assert(apply_kv(pre.base, key@, val@) == pre.base);
                                            assert(step(pre, line@) == Some(pre));
                                        }
                                    } else if str_eq(key, "Name") {
                                        body.name = Some(val.to_owned());
                                        proof {
                                            assert(step(pre, line@) matches Some(st2) && st2
                                                =~= DecSt { base: body@, ..pre });
                                        }
                                    } else if str_eq(key, "Exec") {
                                        body.command = Some(val.to_owned());
                                        proof {
                                            assert(step(pre, line@) matches Some(st2) && st2
                                                =~= DecSt { base: body@, ..pre });
                                        }
                                    } else if str_eq(key, "Terminal") {
                                        body.terminal = Some(self.str_as_bool(val));
                                        proof {
                                            assert(step(pre, line@) matches Some(st2) && st2
                                                =~= DecSt { base: body@, ..pre });
                                        }
                                    } else {
                                        proof {
                                            assert(apply_kv(pre.base, key@, val@) == pre.base);
                                            assert(step(pre, line@) == Some(pre));
                                        }
                                    }
                                },
                                None => {
                                    proof {
                                        assert(step(pre, line@) == Some(pre));
                                    }
                                },
                            }
                        },
                    }
                },
            }
            idx += 1;
        }
        proof {
            assert(kept.take(n as int) =~= kept);
        }
        self.decode_finished(body, h_acts)
    }
}

/// Everything that can go wrong listing or launching applications. Decode
/// failures are not here: a malformed entry is silently dropped.
#[derive(Debug)]
pub enum RunError {
    /// The system-wide application directory could not be enumerated.
    System,
    /// The user's application directory could not be enumerated.
    User,
    /// The flatpak-exported application directory could not be enumerated.
    Flatpak,
    /// The named application needs a terminal and none is configured.
    NoTerminal(String),
    /// The process could not be started; the payload describes the cause.
    Exec(String),
    /// No entry of any source carries the requested name.
    NotFound(String),
}

/// The records of a sequence of raw texts that decode to a valid entry, in
/// reading order.
pub open spec fn decode_all(texts: Seq<Seq<char>>) -> Seq<IniView>
    decreases texts.len(),
{
    if texts.len() == 0 {
        Seq::empty()
    } else {
        decode_all(texts.drop_last()) + match decode_spec(texts.last()) {
            Some(v) => seq![v],
            None => Seq::empty(),
        }
    }
}

/// The raw texts each source supplied: one text per candidate file that could
/// be read, or absence where the source's directory could not be enumerated.
pub struct Installed {
    pub user_texts: Option<Vec<String>>,
    pub system_texts: Option<Vec<String>>,
    pub flatpak_texts: Option<Vec<String>>,
}

/// The aggregate of all sources, user entries first, then flatpak, then
/// system; duplicates are not removed.
pub open spec fn aggregated(i: Installed) -> Seq<IniView> {
    decode_all(i.user_texts->0.deep_view()) + decode_all(i.flatpak_texts->0.deep_view())
        + decode_all(i.system_texts->0.deep_view())
}

impl Installed {
    pub fn new(
        user_texts: Option<Vec<String>>,
        system_texts: Option<Vec<String>>,
        flatpak_texts: Option<Vec<String>>,
    ) -> (r: Self)
        ensures
            r.user_texts == user_texts,
            r.system_texts == system_texts,
            r.flatpak_texts == flatpak_texts,
    {
        Installed { user_texts, system_texts, flatpak_texts }
    }

    /// Decodes every text and keeps the valid entries, in order.
    fn to_inis(&self, texts: &Vec<String>) -> (r: Vec<Ini>)
        ensures
            r.deep_view() == decode_all(texts.deep_view()),
    {
        let mut r: Vec<Ini> = Vec::new();
        let n = texts.len();
        let mut i: usize = 0;
        proof {
            assert(texts.deep_view().take(0) =~= Seq::<Seq<char>>::empty());
        }
        while i < n
            invariant
                n == texts@.len(),
                i <= n,
                texts.deep_view().len() == n,
                r.deep_view() == decode_all(texts.deep_view().take(i as int)),
            decreases n - i,
        {
            let entry = ApplicationEntry::new(texts[i].clone());
            let ghost tv = texts.deep_view();
            proof {
                assert(tv[i as int] == texts@[i as int]@);
                assert(tv.take(i as int + 1).drop_last() =~= tv.take(i as int));
                assert(tv.take(i as int + 1).last() == tv[i as int]);
            }
            match entry.decode() {
                Some(ini) => {
                    r.push(ini);
                    proof {
                        assert(r.deep_view() =~= decode_all(tv.take(i as int + 1)));
                    }
                },
                None => {
                    proof {
                        assert(r.deep_view() =~= decode_all(tv.take(i as int + 1)));
                    }
                },
            }
            i += 1;
        }
        proof {
            assert(texts.deep_view().take(n as int) =~= texts.deep_view());
        }
        r
    }

    /// The decoded entries of the user source, or absence where its directory
    /// could not be enumerated.
    pub fn user(&self) -> (r: Option<Vec<Ini>>)
        ensures
            r is Some <==> self.user_texts is Some,
            r matches Some(v) ==> v.deep_view() == decode_all(self.user_texts->0.deep_view()),
    {
        match &self.user_texts {
            Some(texts) => Some(self.to_inis(texts)),
            None => None,
        }
    }

    /// The decoded entries of the system source, or absence where its
    /// directory could not be enumerated.
    pub fn system(&self) -> (r: Option<Vec<Ini>>)
        ensures
            r is Some <==> self.system_texts is Some,
            r matches Some(v) ==> v.deep_view() == decode_all(self.system_texts->0.deep_view()),
    {
        match &self.system_texts {
            Some(texts) => Some(self.to_inis(texts)),
            None => None,
        }
    }

    /// The decoded entries of the flatpak source, or absence where its
    /// directory could not be enumerated.
    pub fn flatpak(&self) -> (r: Option<Vec<Ini>>)
        ensures
            r is Some <==> self.flatpak_texts is Some,
            r matches Some(v) ==> v.deep_view() == decode_all(self.flatpak_texts->0.deep_view()),
    {
        match &self.flatpak_texts {
            Some(texts) => Some(self.to_inis(texts)),
            None => None,
        }
    }

    /// All sources aggregated, user entries first, then flatpak, then system.
    /// The first source whose directory could not be enumerated fails the
    /// whole aggregation; nothing partial is returned.
    pub fn all(&self) -> (r: Result<Vec<Ini>, RunError>)
        ensures
            r is Ok <==> (self.user_texts is Some && self.system_texts is Some
                && self.flatpak_texts is Some),
            self.user_texts is None ==> r == Err::<Vec<Ini>, RunError>(RunError::User),
            self.user_texts is Some && self.system_texts is None ==> r == Err::<
                Vec<Ini>,
                RunError,
            >(RunError::System),
            self.user_texts is Some && self.system_texts is Some && self.flatpak_texts is None
                ==> r == Err::<Vec<Ini>, RunError>(RunError::Flatpak),
            r matches Ok(v) ==> v.deep_view() == aggregated(*self),
    {
        let mut user_apps = match self.user() {
            Some(v) => v,
            None => {
                return Err(RunError::User);
            },
        };
        let mut sys_apps = match self.system() {
            Some(v) => v,
            None => {
                return Err(RunError::System);
            },
        };
        let mut flatpak_apps = match self.flatpak() {
            Some(v) => v,
            None => {
                return Err(RunError::Flatpak);
            },
        };
        let ghost gu = user_apps.deep_view();
        let ghost gf = flatpak_apps.deep_view();
        let ghost gs = sys_apps.deep_view();
        user_apps.append(&mut flatpak_apps);
        user_apps.append(&mut sys_apps);
        proof {
            assert(user_apps.deep_view() =~= gu + gf + gs);
        }
        Ok(user_apps)
    }
}

/// How listings are rendered: with or without per-entry detail. The rendering
/// itself is presentation and lives with the caller.
pub struct Display(pub bool);

impl Display {
    pub fn new(show_details: bool) -> (r: Self)
        ensures
            r.0 == show_details,
    {
        Display(show_details)
    }
}

} // verus!
