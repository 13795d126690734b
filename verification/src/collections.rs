//! `Deserialize` for maps keyed by strings and for sets.
use std::collections::{BTreeMap, BTreeSet, HashMap, HashSet, VecDeque};
use std::hash::Hash;
use vstd::prelude::*;
use vstd::laws_cmp::obeys_cmp;
use vstd::std_specs::hash::{obeys_key_model, axiom_random_state_builds_valid_hashers};
use crate::source::lemma_src_wf;
use crate::lexer::{Lexer, LexerState, progress, state_ok, input_ok, lemma_lexer_wf};
use crate::parser::{
    EvalError,
    FieldValue,
    ScopeTracker,
    ScopeView,
    scope_next,
    error_in,
    lemma_scope_next,
    lemma_field_parts,
    lemma_field_of_parts,
};
use crate::deserialize::{Deserialize, elements_read, shape_error, span_text, collect_elements};
use crate::value::{holds_entries, inserted_all, entry_values, keys_read, lemma_inserted_all_push};
use crate::text::{key_seen, texts_of};

verus! {

broadcast use {
    lemma_src_wf,
    lemma_lexer_wf,
    lemma_field_parts,
    lemma_field_of_parts,
    axiom_random_state_builds_valid_hashers,
};

/// Reading the entries of an object, each value as a `T`, from parser
/// state `sc` and lexer state `st` of the document `s`, after entries with
/// the keys `seen` were read: `entries` are the keys (as text) and values
/// read, in order, `end` tells how the reading ended (`None` at the end of
/// the object, the first error otherwise), and `st2` is the lexer state
/// after it. A key that was read before is refused as a duplicate key,
/// reported at its span, before its value is read.
pub open spec fn map_entries_read<T: Deserialize>(
    s: Seq<u8>,
    sc: ScopeView,
    st: LexerState,
    seen: Seq<Seq<char>>,
    entries: Seq<(Seq<char>, T)>,
    end: Option<EvalError>,
    st2: LexerState,
) -> bool
    decreases entries.len(),
{
    let (n, sc1, st1) = scope_next(s, sc, st);
    if entries.len() == 0 {
        match n {
            None => end is None && st2 == st1,
            Some(Err(e)) => end == Some(e) && st2 == st1,
            Some(Ok(f)) => if seen.contains(span_text(s, f.key_of())) {
                end == Some(EvalError::DuplicateKey(f.key_of())) && st2 == st1
            } else {
                match end {
                    Some(e) => T::reads(s, f.value_of(), st1, Err(e), st2),
                    None => false,
                }
            },
        }
    } else {
        match n {
            Some(Ok(f)) => {
                &&& !seen.contains(span_text(s, f.key_of()))
                &&& entries[0].0 == span_text(s, f.key_of())
                &&& exists|mid: LexerState|
                    #[trigger] T::reads(s, f.value_of(), st1, Ok(entries[0].1), mid)
                        && map_entries_read::<T>(
                        s,
                        sc1,
                        mid,
                        seen.push(entries[0].0),
                        entries.drop_first(),
                        end,
                        st2,
                    )
            },
            _ => false,
        }
    }
}

/// The keys (as text) and values of key-value pairs.
pub open spec fn entries_of<T>(q: Seq<(String, T)>) -> Seq<(Seq<char>, T)> {
    q.map_values(|p: (String, T)| (p.0@, p.1))
}

/// The keys of key-value pairs.
pub open spec fn keys_of<T>(q: Seq<(String, T)>) -> Seq<String> {
    q.map_values(|p: (String, T)| p.0)
}

/// Reads the remaining entries of an object, each value as a `T`, with
/// their keys.
fn collect_entries<T: Deserialize>(scope: ScopeTracker, lexer: &mut Lexer) -> (r: Result<VecDeque<(String, T)>, EvalError>)
    requires
        old(lexer).wf(),
    ensures
        final(lexer).wf(),
        final(lexer).input() == old(lexer).input(),
        progress(old(lexer).input(), final(lexer)@) <= progress(old(lexer).input(), old(lexer)@),
        match r {
            Ok(q) => map_entries_read::<T>(
                old(lexer).input(),
                scope@,
                old(lexer)@,
                Seq::empty(),
                entries_of(q@),
                None,
                final(lexer)@,
            ),
            Err(e) => exists|entries: Seq<(Seq<char>, T)>|
                map_entries_read::<T>(
                    old(lexer).input(),
                    scope@,
                    old(lexer)@,
                    Seq::empty(),
                    entries,
                    Some(e),
                    final(lexer)@,
                ),
        },
        r matches Err(e) ==> error_in(old(lexer).input(), e),
{
    let ghost s = lexer.input();
    let ghost sc0 = scope@;
    let ghost st0 = lexer@;
    let mut tracker = scope;
    let mut q: VecDeque<(String, T)> = VecDeque::new();
    let mut names: Vec<&str> = Vec::new();
    let mut result: Option<Option<EvalError>> = None;
    proof {
        assert(keys_read(entries_of(q@)) =~= Seq::<Seq<char>>::empty());
        assert(texts_of(names@) =~= Seq::<Seq<char>>::empty());
        assert forall|rest: Seq<(Seq<char>, T)>| entries_of(q@) + rest =~= rest by {}
    }
    loop
        invariant_except_break
            result is None,
            forall|rest: Seq<(Seq<char>, T)>, end: Option<EvalError>, st2: LexerState|
                #[trigger] map_entries_read::<T>(
                    s,
                    tracker@,
                    lexer@,
                    keys_read(entries_of(q@)),
                    rest,
                    end,
                    st2,
                ) ==> map_entries_read::<T>(s, sc0, st0, Seq::empty(), entries_of(q@) + rest, end, st2),
        invariant
            texts_of(names@) == keys_read(entries_of(q@)),
            lexer.wf(),
            lexer.input() == s,
            s == old(lexer).input(),
            st0 == old(lexer)@,
            progress(s, lexer@) <= progress(s, st0),
        ensures
            result matches Some(Some(e)) ==> error_in(s, e),
            result matches Some(end) && map_entries_read::<T>(
                s,
                sc0,
                st0,
                Seq::empty(),
                entries_of(q@),
                end,
                lexer@,
            ),
        decreases progress(s, lexer@),
    {
        let ghost sc_end = tracker@;
        let ghost st_end = lexer@;
        let ghost seen = keys_read(entries_of(q@));
        proof {
            lemma_scope_next(s, tracker@, lexer@);
        }
        match tracker.next(lexer) {
            None => {
                proof {
                    let empty = Seq::<(Seq<char>, T)>::empty();
                    assert(map_entries_read::<T>(s, sc_end, st_end, seen, empty, None, lexer@));
                    assert(entries_of(q@) + empty =~= entries_of(q@));
                }
                result = Some(None);
                break;
            },
            Some(Err(e)) => {
                proof {
                    let empty = Seq::<(Seq<char>, T)>::empty();
                    assert(map_entries_read::<T>(s, sc_end, st_end, seen, empty, Some(e), lexer@));
                    assert(entries_of(q@) + empty =~= entries_of(q@));
                }
                result = Some(Some(e));
                break;
            },
            Some(Ok(field)) => {
                let ghost st1 = lexer@;
                let ghost sc1 = tracker@;
                let ghost fld = field;
                let (span, val) = field.tulpe();
                let name = match span.as_str(lexer) {
                    Some(t) => t,
                    None => {
                        proof {
                            assert(false);
                        }
                        ""
                    },
                };
                proof {
                    assert(name@ == span_text(s, span)) by {
                        broadcast use vstd::utf8::encode_utf8_decode_utf8;
                    }
                }
                if key_seen(&names, name) {
                    proof {
                        let empty = Seq::<(Seq<char>, T)>::empty();
                        assert(span == fld.key_of());
                        assert(map_entries_read::<T>(
                            s,
                            sc_end,
                            st_end,
                            seen,
                            empty,
                            Some(EvalError::DuplicateKey(span)),
                            lexer@,
                        ));
                        assert(entries_of(q@) + empty =~= entries_of(q@));
                    }
                    result = Some(Some(EvalError::DuplicateKey(span)));
                    break;
                }
                let key = name.to_owned();
                match T::deserialize_tero(val, lexer) {
                    Ok(x) => {
                        let ghost before = q@;
                        proof {
                            let e = (span_text(s, span), x);
                            assert(scope_next(s, sc_end, st_end).0 == Some(Ok::<crate::parser::Field, EvalError>(fld)));
                            assert(span == fld.key_of());
                            assert(val == fld.value_of());
                            assert(T::reads(s, fld.value_of(), st1, Ok(x), lexer@));
                        }
                        proof {
                            assert(entries_of(before.push((key, x))) =~= entries_of(before).push((key@, x)));
                            assert(keys_read(entries_of(before.push((key, x)))) =~= seen.push(key@));
                            assert(texts_of(names@.push(name)) =~= texts_of(names@).push(name@));
                        }
                        let ghost key_text = key@;
                        let ghost gx = x;
                        let ghost q_new = before.push((key, x));
                        q.push_back((key, x));
                        names.push(name);
                        proof {
                            assert(q@ == q_new);
                            assert forall|rest: Seq<(Seq<char>, T)>, end: Option<EvalError>, st2: LexerState|
                                #[trigger] map_entries_read::<T>(
                                    s,
                                    tracker@,
                                    lexer@,
                                    keys_read(entries_of(q@)),
                                    rest,
                                    end,
                                    st2,
                                ) implies map_entries_read::<T>(
                                s,
                                sc0,
                                st0,
                                Seq::empty(),
                                entries_of(q@) + rest,
                                end,
                                st2,
                            ) by {
                                assert(key_text == span_text(s, span));
                                assert(keys_read(entries_of(q@)) == seen.push(key_text));
                                let e = (key_text, gx);
                                let r2 = seq![e] + rest;
                                assert(r2[0] == e);
                                assert(r2.drop_first() =~= rest);
                                assert(T::reads(s, fld.value_of(), st1, Ok(r2[0].1), lexer@));
                                assert(map_entries_read::<T>(s, sc1, lexer@, seen.push(r2[0].0), r2.drop_first(), end, st2));
                                assert(r2[0].0 == span_text(s, fld.key_of()));
                                assert(!seen.contains(span_text(s, fld.key_of())));
                                assert(scope_next(s, sc_end, st_end).1 == sc1);
                                assert(scope_next(s, sc_end, st_end).2 == st1);
                                assert(map_entries_read::<T>(s, sc_end, st_end, seen, r2, end, st2));
                                assert(entries_of(before) + r2 =~= entries_of(q@) + rest);
                            }
                        }
                    },
                    Err(e) => {
                        proof {
                            let empty = Seq::<(Seq<char>, T)>::empty();
                            assert(map_entries_read::<T>(s, sc_end, st_end, seen, empty, Some(e), lexer@));
                            assert(entries_of(q@) + empty =~= entries_of(q@));
                        }
                        result = Some(Some(e));
                        break;
                    },
                }
            },
        }
    }
    match result {
        Some(Some(e)) => Err(e),
        _ => Ok(q),
    }
}

/// The values of key-value pairs, as the entries they came from give them.
proof fn lemma_entry_values_of<T>(q: Seq<(String, T)>)
    ensures
        entry_values(entries_of(q)) =~= q.map_values(|p: (String, T)| p.1),
{
}

/// Inserts the pairs, in order, into a `BTreeMap`.
fn btree_from_pairs<T>(q: VecDeque<(String, T)>) -> (m: BTreeMap<String, T>)
    ensures
        obeys_cmp::<String>() ==> holds_entries(m@, entries_of(q@)),
{
    let ghost all = q@;
    let mut q = q;
    let mut m: BTreeMap<String, T> = BTreeMap::new();
    let ghost mut done: Seq<(String, T)> = Seq::empty();
    while q.len() > 0
        invariant
            done + q@ == all,
            obeys_cmp::<String>() ==> m@ == inserted_all(
                keys_of(done),
                done.map_values(|p: (String, T)| p.1),
            ),
        decreases q.len(),
    {
        match q.pop_front() {
            Some((k, v)) => {
                proof {
                    let vals = done.map_values(|p: (String, T)| p.1);
                    lemma_inserted_all_push(keys_of(done), vals, k, v);
                    assert(keys_of(done.push((k, v))) =~= keys_of(done).push(k));
                    assert(done.push((k, v)).map_values(|p: (String, T)| p.1) =~= vals.push(v));
                    assert(done.push((k, v)) + q@ =~= all);
                    done = done.push((k, v));
                }
                m.insert(k, v);
            },
            None => {},
        }
    }
    proof {
        assert(done =~= all);
        lemma_entry_values_of(all);
        let keys = keys_of(all);
        assert(forall|i: int| 0 <= i < keys.len() ==> #[trigger] keys[i]@ == entries_of(all)[i].0);
    }
    m
}

/// Inserts the pairs, in order, into a `HashMap`.
fn hash_from_pairs<T>(q: VecDeque<(String, T)>) -> (m: HashMap<String, T>)
    ensures
        obeys_key_model::<String>() ==> holds_entries(m@, entries_of(q@)),
{
    let ghost all = q@;
    let mut q = q;
    let mut m: HashMap<String, T> = HashMap::new();
    let ghost mut done: Seq<(String, T)> = Seq::empty();
    while q.len() > 0
        invariant
            done + q@ == all,
            obeys_key_model::<String>() ==> m@ == inserted_all(
                keys_of(done),
                done.map_values(|p: (String, T)| p.1),
            ),
        decreases q.len(),
    {
        match q.pop_front() {
            Some((k, v)) => {
                proof {
                    let vals = done.map_values(|p: (String, T)| p.1);
                    lemma_inserted_all_push(keys_of(done), vals, k, v);
                    assert(keys_of(done.push((k, v))) =~= keys_of(done).push(k));
                    assert(done.push((k, v)).map_values(|p: (String, T)| p.1) =~= vals.push(v));
                    assert(done.push((k, v)) + q@ =~= all);
                    done = done.push((k, v));
                }
                m.insert(k, v);
            },
            None => {},
        }
    }
    proof {
        assert(done =~= all);
        lemma_entry_values_of(all);
        let keys = keys_of(all);
        assert(forall|i: int| 0 <= i < keys.len() ==> #[trigger] keys[i]@ == entries_of(all)[i].0);
    }
    m
}

impl<T: Deserialize> Deserialize for BTreeMap<String, T> {
    /// An object, whose values are read as `T`s in order; a key given twice
    /// is refused as a duplicate key. The map holds the values by key, as
    /// far as the ordering of `String` keeps the laws that `BTreeMap`
    /// relies on. Anything but an object is refused.
    open spec fn reads(
        s: Seq<u8>,
        value: FieldValue,
        st: LexerState,
        r: Result<BTreeMap<String, T>, EvalError>,
        st2: LexerState,
    ) -> bool {
        match value {
            FieldValue::Block(b) => match r {
                Ok(m) => exists|entries: Seq<(Seq<char>, T)>|
                    #![trigger map_entries_read::<T>(s, b@, st, Seq::empty(), entries, None, st2)]
                    map_entries_read::<T>(s, b@, st, Seq::empty(), entries, None, st2) && (obeys_cmp::<String>()
                        ==> holds_entries(m@, entries)),
                Err(e) => exists|entries: Seq<(Seq<char>, T)>|
                    map_entries_read::<T>(s, b@, st, Seq::empty(), entries, Some(e), st2),
            },
            _ => r == Err::<BTreeMap<String, T>, EvalError>(shape_error(value)) && st2 == st,
        }
    }

    fn deserialize_tero(value: FieldValue, lexer: &mut Lexer) -> (r: Result<BTreeMap<String, T>, EvalError>) {
        match value {
            FieldValue::Block(scope) => match collect_entries::<T>(scope, lexer) {
                Ok(q) => {
                    let ghost entries = entries_of(q@);
                    let m = btree_from_pairs(q);
                    let r: Result<BTreeMap<String, T>, EvalError> = Ok(m);
                    proof {
                        let m2 = r->Ok_0;
                        assert(map_entries_read::<T>(lexer.input(), scope@, old(lexer)@, Seq::empty(), entries, None, lexer@));
                        assert(obeys_cmp::<String>() ==> holds_entries(m2@, entries));
                        assert(exists|es: Seq<(Seq<char>, T)>|
                            #![trigger map_entries_read::<T>(lexer.input(), scope@, old(lexer)@, Seq::empty(), es, None, lexer@)]
                            map_entries_read::<T>(lexer.input(), scope@, old(lexer)@, Seq::empty(), es, None, lexer@)
                                && (obeys_cmp::<String>() ==> holds_entries(m2@, es)));
                    }
                    r
                },
                Err(e) => Err(e),
            },
            FieldValue::Literal(tk) => Err(EvalError::UnexpectedToken(tk)),
            FieldValue::Array(_) => Err(EvalError::UnexpectedToken(crate::token::Token::LeftBracket)),
        }
    }
}

impl<T: Deserialize> Deserialize for HashMap<String, T> {
    /// An object, whose values are read as `T`s in order; a key given twice
    /// is refused as a duplicate key. The map holds the values by key, as
    /// far as the hashing of `String` keeps the laws that `HashMap` relies
    /// on. Anything but an object is refused.
    open spec fn reads(
        s: Seq<u8>,
        value: FieldValue,
        st: LexerState,
        r: Result<HashMap<String, T>, EvalError>,
        st2: LexerState,
    ) -> bool {
        match value {
            FieldValue::Block(b) => match r {
                Ok(m) => exists|entries: Seq<(Seq<char>, T)>|
                    #![trigger map_entries_read::<T>(s, b@, st, Seq::empty(), entries, None, st2)]
                    map_entries_read::<T>(s, b@, st, Seq::empty(), entries, None, st2) && (obeys_key_model::<
                        String,
                    >() ==> holds_entries(m@, entries)),
                Err(e) => exists|entries: Seq<(Seq<char>, T)>|
                    map_entries_read::<T>(s, b@, st, Seq::empty(), entries, Some(e), st2),
            },
            _ => r == Err::<HashMap<String, T>, EvalError>(shape_error(value)) && st2 == st,
        }
    }

    fn deserialize_tero(value: FieldValue, lexer: &mut Lexer) -> (r: Result<HashMap<String, T>, EvalError>) {
        match value {
            FieldValue::Block(scope) => match collect_entries::<T>(scope, lexer) {
                Ok(q) => {
                    let ghost entries = entries_of(q@);
                    let m = hash_from_pairs(q);
                    let r: Result<HashMap<String, T>, EvalError> = Ok(m);
                    proof {
                        let m2 = r->Ok_0;
                        assert(map_entries_read::<T>(lexer.input(), scope@, old(lexer)@, Seq::empty(), entries, None, lexer@));
                        assert(obeys_key_model::<String>() ==> holds_entries(m2@, entries));
                        assert(exists|es: Seq<(Seq<char>, T)>|
                            #![trigger map_entries_read::<T>(lexer.input(), scope@, old(lexer)@, Seq::empty(), es, None, lexer@)]
                            map_entries_read::<T>(lexer.input(), scope@, old(lexer)@, Seq::empty(), es, None, lexer@)
                                && (obeys_key_model::<String>() ==> holds_entries(m2@, es)));
                    }
                    r
                },
                Err(e) => Err(e),
            },
            FieldValue::Literal(tk) => Err(EvalError::UnexpectedToken(tk)),
            FieldValue::Array(_) => Err(EvalError::UnexpectedToken(crate::token::Token::LeftBracket)),
        }
    }
}

impl<T: Deserialize + Hash + Eq> Deserialize for HashSet<T> {
    /// An array, whose elements are read as `T`s in order; the set holds
    /// them, as far as the hashing of `T` keeps the laws that `HashSet`
    /// relies on. Anything but an array is refused.
    open spec fn reads(
        s: Seq<u8>,
        value: FieldValue,
        st: LexerState,
        r: Result<HashSet<T>, EvalError>,
        st2: LexerState,
    ) -> bool {
        match value {
            FieldValue::Array(a) => match r {
                Ok(set) => exists|items: Seq<T>|
                    #![trigger elements_read::<T>(s, a@, st, items, None, st2)]
                    elements_read::<T>(s, a@, st, items, None, st2) && (obeys_key_model::<T>()
                        ==> set@ == items.to_set()),
                Err(e) => exists|items: Seq<T>| elements_read::<T>(s, a@, st, items, Some(e), st2),
            },
            _ => r == Err::<HashSet<T>, EvalError>(shape_error(value)) && st2 == st,
        }
    }

    fn deserialize_tero(value: FieldValue, lexer: &mut Lexer) -> (r: Result<HashSet<T>, EvalError>) {
        match value {
            FieldValue::Array(mut arr) => {
                let ghost arr0 = arr;
                match collect_elements::<T>(&mut arr, lexer) {
                Ok(mut vec) => {
                    let ghost all = vec@;
                    let mut set: HashSet<T> = HashSet::new();
                    while vec.len() > 0
                        invariant
                            obeys_key_model::<T>() ==> set@ + vec@.to_set() == all.to_set(),
                        decreases vec.len(),
                    {
                        let ghost rest = vec@;
                        let ghost before = set@;
                        match vec.pop() {
                            Some(x) => {
                                set.insert(x);
                                proof {
                                    assert(rest =~= vec@.push(x));
                                    vec@.lemma_push_to_set_commute(x);
                                    if obeys_key_model::<T>() {
                                        assert(set@ + vec@.to_set() =~= before + rest.to_set());
                                    }
                                }
                            },
                            None => {},
                        }
                    }
                    proof {
                        assert(vec@.to_set() =~= Set::<T>::empty()) by {
                            assert(vec@ =~= Seq::<T>::empty());
                        }
                        if obeys_key_model::<T>() {
                            assert(set@ =~= all.to_set());
                        }
                    }
                    let r = Ok(set);
                    proof {
                        let set2 = r->Ok_0;
                        assert(elements_read::<T>(lexer.input(), arr0@, old(lexer)@, all, None, lexer@));
                        assert(obeys_key_model::<T>() ==> set2@ == all.to_set());
                    }
                    r
                },
                Err(e) => Err(e),
            }
            },
            FieldValue::Literal(tk) => Err(EvalError::UnexpectedToken(tk)),
            FieldValue::Block(_) => Err(EvalError::UnexpectedToken(crate::token::Token::LeftBrace)),
        }
    }
}

impl<T: Deserialize + Ord> Deserialize for BTreeSet<T> {
    /// An array, whose elements are read as `T`s in order; the set holds
    /// them, as far as the ordering of `T` keeps the laws that `BTreeSet`
    /// relies on. Anything but an array is refused.
    open spec fn reads(
        s: Seq<u8>,
        value: FieldValue,
        st: LexerState,
        r: Result<BTreeSet<T>, EvalError>,
        st2: LexerState,
    ) -> bool {
        match value {
            FieldValue::Array(a) => match r {
                Ok(set) => exists|items: Seq<T>|
                    #![trigger elements_read::<T>(s, a@, st, items, None, st2)]
                    elements_read::<T>(s, a@, st, items, None, st2) && (obeys_cmp::<T>()
                        ==> set@ == items.to_set()),
                Err(e) => exists|items: Seq<T>| elements_read::<T>(s, a@, st, items, Some(e), st2),
            },
            _ => r == Err::<BTreeSet<T>, EvalError>(shape_error(value)) && st2 == st,
        }
    }

    fn deserialize_tero(value: FieldValue, lexer: &mut Lexer) -> (r: Result<BTreeSet<T>, EvalError>) {
        match value {
            FieldValue::Array(mut arr) => {
                let ghost arr0 = arr;
                match collect_elements::<T>(&mut arr, lexer) {
                Ok(mut vec) => {
                    let ghost all = vec@;
                    let mut set: BTreeSet<T> = BTreeSet::new();
                    while vec.len() > 0
                        invariant
                            obeys_cmp::<T>() ==> set@ + vec@.to_set() == all.to_set(),
                        decreases vec.len(),
                    {
                        let ghost rest = vec@;
                        let ghost before = set@;
                        match vec.pop() {
                            Some(x) => {
                                set.insert(x);
                                proof {
                                    assert(rest =~= vec@.push(x));
                                    vec@.lemma_push_to_set_commute(x);
                                    if obeys_cmp::<T>() {
                                        assert(set@ + vec@.to_set() =~= before + rest.to_set());
                                    }
                                }
                            },
                            None => {},
                        }
                    }
                    proof {
                        assert(vec@.to_set() =~= Set::<T>::empty()) by {
                            assert(vec@ =~= Seq::<T>::empty());
                        }
                        if obeys_cmp::<T>() {
                            assert(set@ =~= all.to_set());
                        }
                    }
                    let r = Ok(set);
                    proof {
                        let set2 = r->Ok_0;
                        assert(elements_read::<T>(lexer.input(), arr0@, old(lexer)@, all, None, lexer@));
                        assert(obeys_cmp::<T>() ==> set2@ == all.to_set());
                    }
                    r
                },
                Err(e) => Err(e),
            }
            },
            FieldValue::Literal(tk) => Err(EvalError::UnexpectedToken(tk)),
            FieldValue::Block(_) => Err(EvalError::UnexpectedToken(crate::token::Token::LeftBrace)),
        }
    }
}

} // verus!
