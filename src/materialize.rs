//! Command materializer: the runnable command of a calculation instance.

use vstd::prelude::*;
use crate::command::{chars_of, is_word_at, placeholder, text_of, token_close, token_end, word_at};
use crate::extras::lookup_extra;
use crate::instance::has_data;
use crate::model::{extra_lookup, CalcView, ExtraData, ExtraValue, GraphError};
use crate::store::{calc_ids, Database};
use crate::template::{calc_with, has_calc};
use crate::text::{bool_text, copy_text, int_text, push_bool, push_char, push_decimal, push_int, push_text};

verus! {

/// Text of an extra value.
pub open spec fn extra_text(v: ExtraValue) -> Seq<char> {
    match v {
        ExtraValue::Int(i) => int_text(i as int),
        ExtraValue::Text(s) => s,
        ExtraValue::Bool(b) => bool_text(b),
    }
}

/// The text `extra(`.
pub open spec fn extra_word() -> Seq<char> {
    seq!['e', 'x', 't', 'r', 'a', '(']
}

/// `root/id`.
pub open spec fn root_path(root: Seq<char>, id: Seq<char>) -> Seq<char> {
    root + seq!['/'] + id
}

/// A decimal digit.
pub open spec fn is_digit(c: char) -> bool {
    48 <= (c as u32) <= 57
}

/// Placeholder `$<kind>_k` stands at `i`, not followed by a further digit.
pub open spec fn placeholder_at(s: Seq<char>, i: int, kind: char, k: nat) -> bool {
    let p = placeholder(kind, k);
    word_at(s, i, p) && (i + p.len() >= s.len() || !is_digit(s[i + p.len()]))
}

/// The first position `k` in `from..n` whose placeholder stands at `i`, or -1.
pub open spec fn first_placeholder(s: Seq<char>, i: int, kind: char, n: int, from: int) -> int
    decreases n - from,
{
    if from < 0 || from >= n {
        -1
    } else if placeholder_at(s, i, kind, from as nat) {
        from
    } else {
        first_placeholder(s, i, kind, n, from + 1)
    }
}

/// `p` in front of a successful result; an error stays.
pub open spec fn prepend(p: Seq<char>, r: Result<Seq<char>, Seq<char>>) -> Result<Seq<char>, Seq<char>> {
    match r {
        Ok(x) => Ok(p + x),
        Err(k) => Err(k),
    }
}

/// The command text from position `i` on, read once from left to right:
/// `$i_k` / `$o_k` for a position `k` of the instance becomes
/// `root/<identifier at k>`, `extra(key)` becomes the effective value of
/// `key`, and any other character stays. The error holds the first key
/// without a value.
pub open spec fn materialize_from(s: Seq<char>, i: int, c: CalcView, t: CalcView, root: Seq<char>) -> Result<
    Seq<char>,
    Seq<char>,
>
    decreases s.len() - i,
{
    if i < 0 || i >= s.len() {
        Ok(Seq::empty())
    } else {
        let ki = first_placeholder(s, i, 'i', c.incoming.len() as int, 0);
        let ko = first_placeholder(s, i, 'o', c.outcoming.len() as int, 0);
        let close = token_close(s, i, extra_word());
        if ki >= 0 && i + placeholder('i', ki as nat).len() <= s.len() {
            prepend(
                root_path(root, c.incoming[ki]),
                materialize_from(s, i + placeholder('i', ki as nat).len(), c, t, root),
            )
        } else if ko >= 0 && i + placeholder('o', ko as nat).len() <= s.len() {
            prepend(
                root_path(root, c.outcoming[ko]),
                materialize_from(s, i + placeholder('o', ko as nat).len(), c, t, root),
            )
        } else if close >= 0 {
            match effective_extra(c, Some(t), s.subrange(i + 6, close)) {
                Some(v) => prepend(extra_text(v), materialize_from(s, close + 1, c, t, root)),
                None => Err(s.subrange(i + 6, close)),
            }
        } else {
            prepend(seq![s[i]], materialize_from(s, i + 1, c, t, root))
        }
    }
}

/// The command of instance `c` of template `t` with data under `root`.
pub open spec fn materialized(c: CalcView, t: CalcView, root: Seq<char>) -> Result<Seq<char>, Seq<char>> {
    materialize_from(t.command, 0, c, t, root)
}

/// The value of an extra key for a calculation instance: its own value,
/// else its template's default.
pub open spec fn effective_extra(c: CalcView, t: Option<CalcView>, key: Seq<char>) -> Option<ExtraValue> {
    match extra_lookup(c.extra, key) {
        Some(v) => Some(v),
        None => match t {
            Some(t) => extra_lookup(t.extra, key),
            None => None,
        },
    }
}

/// Text of an extra value.
pub fn extra_string(v: &ExtraData) -> (r: String)
    ensures
        r@ == extra_text(v@),
{
    let mut r = String::new();
    match v {
        ExtraData::Int(i) => push_int(&mut r, *i),
        ExtraData::String(s) => push_text(&mut r, s),
        ExtraData::Bool(b) => push_bool(&mut r, *b),
    }
    assert(r@ =~= extra_text(v@));
    r
}

fn placeholder_text(kind: char, k: u64) -> (r: String)
    ensures
        r@ == placeholder(kind, k as nat),
        r@.len() > 0,
{
    let mut r = String::new();
    push_char(&mut r, '$');
    push_char(&mut r, kind);
    push_char(&mut r, '_');
    push_decimal(&mut r, k);
    assert(r@ =~= placeholder(kind, k as nat));
    r
}

fn word_extra() -> (w: Vec<char>)
    ensures
        w@ == extra_word(),
{
    let mut w: Vec<char> = Vec::new();
    w.push('e');
    w.push('x');
    w.push('t');
    w.push('r');
    w.push('a');
    w.push('(');
    assert(w@ =~= extra_word());
    w
}

/// Position and length of the first placeholder `$<kind>_k`, `k < n`,
/// that stands at `i`.
fn find_placeholder(s: &Vec<char>, i: usize, kind: char, n: usize) -> (r: Option<(usize, usize)>)
    requires
        i < s@.len(),
    ensures
        match r {
            Some((k, len)) => k < n && k as int == first_placeholder(s@, i as int, kind, n as int, 0) && len == placeholder(
                kind,
                k as nat,
            ).len() && i + len <= s@.len(),
            None => first_placeholder(s@, i as int, kind, n as int, 0) == -1,
        },
{
    let mut k: usize = 0;
    while k < n
        invariant
            i < s@.len(),
            k <= n,
            first_placeholder(s@, i as int, kind, n as int, 0) == first_placeholder(s@, i as int, kind, n as int, k as int),
        decreases n - k,
    {
        let p = chars_of(&placeholder_text(kind, k as u64));
        if is_word_at(s, i, &p) {
            let total = s.len();
            assert(i + p@.len() <= total);
            let end = i + p.len();
            let followed = end < s.len() && {
                let code = s[end] as u32;
                code >= 48 && code <= 57
            };
            if !followed {
                return Some((k, p.len()));
            }
        }
        k = k + 1;
    }
    None
}

impl Database {
    /// The effective value of extra `key` for calculation instance
    /// `node_id`, as text: the instance's own value, else the default of its
    /// template; `None` when neither has one or the instance is absent.
    pub fn get_extra(&self, node_id: &String, key: &String) -> (r: Option<String>)
        requires
            self@.wf(),
        ensures
            match r {
                Some(v) => has_calc(self@.calcs, node_id@) && ({
                    let c = calc_with(self@.calcs, node_id@);
                    let t = if has_calc(self@.template.calcs, c.template) {
                        Some(calc_with(self@.template.calcs, c.template))
                    } else {
                        None
                    };
                    effective_extra(c, t, key@) is Some && v@ == extra_text(effective_extra(c, t, key@)->Some_0)
                }),
                None => !has_calc(self@.calcs, node_id@) || ({
                    let c = calc_with(self@.calcs, node_id@);
                    let t = if has_calc(self@.template.calcs, c.template) {
                        Some(calc_with(self@.template.calcs, c.template))
                    } else {
                        None
                    };
                    effective_extra(c, t, key@) is None
                }),
            },
    {
        let k = match self.find_calc(node_id) {
            Some(k) => k,
            None => {
                return None;
            },
        };
        let ghost db = self@;
        proof {
            let j = choose|j: int| 0 <= j < db.calcs.len() && (#[trigger] db.calcs[j]).id == node_id@;
            assert(calc_ids(db.calcs)[j] == calc_ids(db.calcs)[k as int]);
        }
        let c = &self.cnodes[k];
        if let Some(v) = lookup_extra(&c.extra, key) {
            return Some(extra_string(v));
        }
        match self.template.find_calc(&c.template) {
            Some(t) => {
                proof {
                    let j = choose|j: int|
                        0 <= j < db.template.calcs.len() && (#[trigger] db.template.calcs[j]).id == c@.template;
                    assert(calc_ids(db.template.calcs)[j] == calc_ids(db.template.calcs)[t as int]);
                }
                match lookup_extra(&self.template.cnodes[t].extra, key) {
                    Some(v) => Some(extra_string(v)),
                    None => None,
                }
            },
            None => None,
        }
    }

    /// The runnable command of calculation instance `cnode_id`: its
    /// template's command read once from left to right, where `$i_k` /
    /// `$o_k` becomes `root_folder/<id at position k>` and `extra(key)` the
    /// effective value of `key`. A placeholder `extra(key)` without a value
    /// is an error naming the key.
    pub fn get_command(&self, cnode_id: String, root_folder: String) -> (r: Result<String, GraphError>)
        requires
            self@.wf(),
        ensures
            !has_calc(self@.calcs, cnode_id@) ==> (r matches Err(GraphError::NotFound(n)) && n@ == cnode_id@),
            has_calc(self@.calcs, cnode_id@) ==> ({
                let c = calc_with(self@.calcs, cnode_id@);
                if !has_calc(self@.template.calcs, c.template) {
                    r matches Err(GraphError::NotFound(n)) && n@ == c.template
                } else {
                    match materialized(c, calc_with(self@.template.calcs, c.template), root_folder@) {
                        Ok(text) => r matches Ok(out) && out@ == text,
                        Err(key) => r matches Err(GraphError::UnresolvedPlaceholder(k)) && k@ == key,
                    }
                }
            }),
    {
        let ghost db = self@;
        let k = match self.find_calc(&cnode_id) {
            Some(k) => k,
            None => {
                return Err(GraphError::NotFound(cnode_id));
            },
        };
        proof {
            let j = choose|j: int| 0 <= j < db.calcs.len() && (#[trigger] db.calcs[j]).id == cnode_id@;
            assert(calc_ids(db.calcs)[j] == calc_ids(db.calcs)[k as int]);
        }
        let c = &self.cnodes[k];
        let t = match self.template.find_calc(&c.template) {
            Some(t) => t,
            None => {
                return Err(GraphError::NotFound(copy_text(&c.template)));
            },
        };
        proof {
            let j = choose|j: int| 0 <= j < db.template.calcs.len() && (#[trigger] db.template.calcs[j]).id == c@.template;
            assert(calc_ids(db.template.calcs)[j] == calc_ids(db.template.calcs)[t as int]);
        }
        let tc = &self.template.cnodes[t];
        let ghost cv = c@;
        let ghost tv = tc@;
        assert(has_calc(db.calcs, cnode_id@) && cv == calc_with(db.calcs, cnode_id@));
        assert(has_calc(db.template.calcs, cv.template) && tv == calc_with(db.template.calcs, cv.template));
        let s = chars_of(&tc.command);
        let w = word_extra();
        assert(extra_word().len() == 6);
        let mut out = String::new();
        let mut i: usize = 0;
        while i < s.len()
            invariant
                cv == c@,
                tv == tc@,
                db == self@,
                has_calc(db.calcs, cnode_id@) && cv == calc_with(db.calcs, cnode_id@),
                has_calc(db.template.calcs, cv.template) && tv == calc_with(db.template.calcs, cv.template),
                s@ == tv.command,
                w@ == extra_word(),
                i <= s@.len(),
                materialized(cv, tv, root_folder@) == prepend(out@, materialize_from(s@, i as int, cv, tv, root_folder@)),
            decreases s@.len() - i,
        {
            let ghost before = out@;
            let ghost rest_i = materialize_from(s@, i as int, cv, tv, root_folder@);
            if let Some((k, len)) = find_placeholder(&s, i, 'i', c.incoming.len()) {
                push_text(&mut out, &root_folder);
                push_char(&mut out, '/');
                push_text(&mut out, &c.incoming[k]);
                i = i + len;
                assert(out@ =~= before + root_path(root_folder@, cv.incoming[k as int]));
                assert(prepend(before, rest_i) =~= prepend(out@, materialize_from(s@, i as int, cv, tv, root_folder@))) by {
                    match materialize_from(s@, i as int, cv, tv, root_folder@) {
                        Ok(x) => { assert(before + (root_path(root_folder@, cv.incoming[k as int]) + x) =~= out@ + x); },
                        Err(_) => {},
                    }
                }
            } else if let Some((k, len)) = find_placeholder(&s, i, 'o', c.outcoming.len()) {
                push_text(&mut out, &root_folder);
                push_char(&mut out, '/');
                push_text(&mut out, &c.outcoming[k]);
                i = i + len;
                assert(out@ =~= before + root_path(root_folder@, cv.outcoming[k as int]));
                assert(prepend(before, rest_i) =~= prepend(out@, materialize_from(s@, i as int, cv, tv, root_folder@))) by {
                    match materialize_from(s@, i as int, cv, tv, root_folder@) {
                        Ok(x) => { assert(before + (root_path(root_folder@, cv.outcoming[k as int]) + x) =~= out@ + x); },
                        Err(_) => {},
                    }
                }
            } else if let Some(close) = token_end(&s, i, &w) {
                let key = text_of(&s, i + 6, close);
                let value = match lookup_extra(&c.extra, &key) {
                    Some(v) => Some(extra_string(v)),
                    None => match lookup_extra(&tc.extra, &key) {
                        Some(v) => Some(extra_string(v)),
                        None => None,
                    },
                };
                match value {
                    Some(v) => {
                        push_text(&mut out, &v);
                        let ghost vt = v@;
                        i = close + 1;
                        assert(prepend(before, rest_i) =~= prepend(out@, materialize_from(s@, i as int, cv, tv, root_folder@))) by {
                            match materialize_from(s@, i as int, cv, tv, root_folder@) {
                                Ok(x) => { assert(before + (vt + x) =~= out@ + x); },
                                Err(_) => {},
                            }
                        }
                    },
                    None => {
                        assert(effective_extra(cv, Some(tv), key@) is None);
                        assert(materialize_from(s@, i as int, cv, tv, root_folder@) == Err::<Seq<char>, Seq<char>>(key@));
                        return Err(GraphError::UnresolvedPlaceholder(key));
                    },
                }
            } else {
                push_char(&mut out, s[i]);
                i = i + 1;
                assert(prepend(before, rest_i) =~= prepend(out@, materialize_from(s@, i as int, cv, tv, root_folder@))) by {
                    match materialize_from(s@, i as int, cv, tv, root_folder@) {
                        Ok(x) => { assert(before + (seq![s@[i - 1]] + x) =~= out@ + x); },
                        Err(_) => {},
                    }
                }
            }
        }
        assert(out@ + Seq::<char>::empty() =~= out@);
        Ok(out)
    }
}

} // verus!
