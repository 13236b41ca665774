//! Cypher queries with named parameters, and combining several queries into
//! one.

use vstd::prelude::*;

use crate::shasum::push_char;

verus! {

/// A Cypher query: its text and its named parameters.  The value type is the
/// caller's, such as the driver's parameter values.
#[derive(Clone, Debug, PartialEq)]
pub struct CypherQuery<V> {
    pub text: String,
    pub params: Vec<(String, V)>,
}

/// Whether some pair has the given key.
pub open spec fn has_key<V>(ps: Seq<(String, V)>, key: Seq<char>) -> bool {
    exists|i: int| 0 <= i < ps.len() && ps[i].0@ == key
}

/// The parameters with, for each key, only its first pair kept.
pub open spec fn first_of_each_key<V>(ps: Seq<(String, V)>) -> Seq<(String, V)>
    decreases ps.len(),
{
    if ps.len() == 0 {
        Seq::empty()
    } else {
        let kept = first_of_each_key(ps.drop_last());
        if has_key(kept, ps.last().0@) {
            kept
        } else {
            kept.push(ps.last())
        }
    }
}

/// The parameters of all the queries, in order.
pub open spec fn all_params<V>(qs: Seq<CypherQuery<V>>) -> Seq<(String, V)>
    decreases qs.len(),
{
    if qs.len() == 0 {
        Seq::empty()
    } else {
        all_params(qs.drop_last()) + qs.last().params@
    }
}

/// The texts of all the queries, each followed by a newline.
pub open spec fn combined_text<V>(qs: Seq<CypherQuery<V>>) -> Seq<char>
    decreases qs.len(),
{
    if qs.len() == 0 {
        Seq::empty()
    } else {
        combined_text(qs.drop_last()) + qs.last().text@.push('\n')
    }
}

/// The value of the first pair with the given key.
pub open spec fn first_value<V>(ps: Seq<(String, V)>, key: Seq<char>) -> Option<V>
    decreases ps.len(),
{
    if ps.len() == 0 {
        None
    } else {
        match first_value(ps.drop_last(), key) {
            Some(v) => Some(v),
            None => if ps.last().0@ == key {
                Some(ps.last().1)
            } else {
                None
            },
        }
    }
}

/// Whether no two pairs share a key.
pub open spec fn keys_distinct<V>(ps: Seq<(String, V)>) -> bool {
    forall|i: int, j: int| 0 <= i < j < ps.len() ==> ps[i].0@ != ps[j].0@
}

fn contains_key<V>(ps: &Vec<(String, V)>, key: &String) -> (b: bool)
    ensures
        b == has_key(ps@, key@),
{
    let mut k: usize = 0;
    while k < ps.len()
        invariant
            k <= ps@.len(),
            forall|m: int| 0 <= m < k ==> ps@[m].0@ != key@,
        decreases ps@.len() - k,
    {
        if ps[k].0 == *key {
            return true;
        }
        k = k + 1;
    }
    false
}

impl<V> CypherQuery<V> {
    /// A query with the given text and no parameters.
    pub fn new(text: String) -> (q: Self)
        ensures
            q.text == text,
            q.params@ == Seq::<(String, V)>::empty(),
    {
        CypherQuery { text, params: Vec::new() }
    }

    /// The query with `value` under `key`: an earlier value under the same
    /// key is replaced, otherwise the pair is added at the end.
    pub fn param(self, key: String, value: V) -> (q: Self)
        ensures
            q.text == self.text,
            has_key(self.params@, key@) ==> exists|i: int|
                0 <= i < self.params@.len() && self.params@[i].0@ == key@
                && (forall|m: int| 0 <= m < i ==> self.params@[m].0@ != key@)
                && q.params@ == self.params@.update(i, (self.params@[i].0, value)),
            !has_key(self.params@, key@) ==> q.params@ == self.params@.push((key, value)),
    {
        let CypherQuery { text, mut params } = self;
        let mut k: usize = 0;
        let mut found = false;
        while k < params.len()
            invariant_except_break
                !found,
            invariant
                k <= params@.len(),
                forall|m: int| 0 <= m < k ==> params@[m].0@ != key@,
            ensures
                k <= params@.len(),
                forall|m: int| 0 <= m < k ==> params@[m].0@ != key@,
                found ==> k < params@.len() && params@[k as int].0@ == key@,
                !found ==> k == params@.len(),
            decreases params@.len() - k,
        {
            if params[k].0 == key {
                found = true;
                break;
            }
            k = k + 1;
        }
        if found {
            let ghost old_params = params@;
            let (existing, _) = params.remove(k);
            params.insert(k, (existing, value));
            assert(params@ =~= old_params.update(k as int, (old_params[k as int].0, value)));
        } else {
            params.push((key, value));
        }
        CypherQuery { text, params }
    }

    /// This query followed by another, combined as [`combine_queries`] does.
    pub fn with(self, query: CypherQuery<V>) -> (q: Self)
        ensures
            q.text@ == combined_text(seq![self, query]),
            q.text@ == self.text@.push('\n') + query.text@.push('\n'),
            q.params@ == first_of_each_key(all_params(seq![self, query])),
    {
        let ghost both = seq![self, query];
        proof {
            lemma_combined_text_push(seq![self], query);
            lemma_combined_text_push(Seq::empty(), self);
            assert(seq![self].push(query) =~= both);
            assert(Seq::<CypherQuery<V>>::empty().push(self) =~= seq![self]);
            assert(Seq::<char>::empty() + self.text@.push('\n') =~= self.text@.push('\n'));
        }
        let mut queries: Vec<CypherQuery<V>> = Vec::new();
        queries.push(self);
        queries.push(query);
        assert(queries@ =~= both);
        combine_queries(queries)
    }
}

/// Combines queries by appending their texts, each followed by a newline.
/// The parameters are gathered in order; when a key is duplicated, the first
/// value given for it is kept and the later ones are dropped.  This does not
/// take care of syntax issues.
pub fn combine_queries<V>(queries: Vec<CypherQuery<V>>) -> (q: CypherQuery<V>)
    ensures
        q.text@ == combined_text(queries@),
        q.params@ == first_of_each_key(all_params(queries@)),
{
    let ghost qs = queries@;
    let mut params: Vec<(String, V)> = Vec::new();
    let mut query_string = String::new();
    let ghost mut seen: Seq<(String, V)> = Seq::empty();
    assert(qs.take(0) =~= Seq::<CypherQuery<V>>::empty());
    for q in it: queries
        invariant
            it.seq() == qs,
            seen == all_params(qs.take(it.index() as int)),
            params@ == first_of_each_key(seen),
            query_string@ == combined_text(qs.take(it.index() as int)),
    {
        let ghost k = it.index() as int;
        assert(qs.take(k + 1).drop_last() =~= qs.take(k));
        assert(qs.take(k + 1).last() == q);
        let CypherQuery { text, params: q_params } = q;
        let ghost qp = q_params@;
        let ghost seen_before = seen;
        assert(qp.take(0) =~= Seq::<(String, V)>::empty());
        assert(seen_before + qp.take(0) =~= seen_before);
        for pair in jt: q_params
            invariant
                jt.seq() == qp,
                seen == seen_before + qp.take(jt.index() as int),
                params@ == first_of_each_key(seen),
        {
            let ghost j = jt.index() as int;
            let ghost prev = seen;
            proof {
                seen = seen.push(pair);
                assert(seen_before + qp.take(j + 1) =~= seen);
                assert(seen.drop_last() =~= prev);
            }
            if !contains_key(&params, &pair.0) {
                params.push(pair);
            }
        }
        assert(qp.take(qp.len() as int) =~= qp);
        query_string.append(text.as_str());
        push_char(&mut query_string, '\n');
    }
    assert(qs.take(qs.len() as int) =~= qs);
    CypherQuery { text: query_string, params }
}

/// The keys that combining drops, in the order met: the key of every pair
/// that an earlier pair already gave.
pub open spec fn dropped_keys<V>(ps: Seq<(String, V)>) -> Seq<Seq<char>>
    decreases ps.len(),
{
    if ps.len() == 0 {
        Seq::empty()
    } else {
        let pre = dropped_keys(ps.drop_last());
        if has_key(ps.drop_last(), ps.last().0@) {
            pre.push(ps.last().0@)
        } else {
            pre
        }
    }
}

/// Strings as character sequences, in order.
pub open spec fn keys_view(keys: Seq<String>) -> Seq<Seq<char>> {
    keys.map_values(|k: String| k@)
}

fn has_string(ss: &Vec<String>, key: &String) -> (b: bool)
    ensures
        b == exists|i: int| 0 <= i < ss@.len() && ss@[i]@ == key@,
{
    let mut k: usize = 0;
    while k < ss.len()
        invariant
            k <= ss@.len(),
            forall|m: int| 0 <= m < k ==> ss@[m]@ != key@,
        decreases ss@.len() - k,
    {
        if ss[k] == *key {
            return true;
        }
        k = k + 1;
    }
    false
}

/// The keys that [`combine_queries`] drops, one for each pair whose key an
/// earlier pair (of the same query or of an earlier one) already gave, in
/// the order the pairs come: what a caller warns about.
pub fn duplicated_keys<V>(queries: &Vec<CypherQuery<V>>) -> (keys: Vec<String>)
    ensures
        keys_view(keys@) == dropped_keys(all_params(queries@)),
{
    let ghost qs = queries@;
    let mut seen: Vec<String> = Vec::new();
    let mut keys: Vec<String> = Vec::new();
    let ghost mut ps: Seq<(String, V)> = Seq::empty();
    assert(qs.take(0) =~= Seq::<CypherQuery<V>>::empty());
    let mut k: usize = 0;
    while k < queries.len()
        invariant
            qs == queries@,
            k <= qs.len(),
            ps == all_params(qs.take(k as int)),
            seen@.len() == ps.len(),
            forall|i: int| 0 <= i < ps.len() ==> (#[trigger] seen@[i])@ == ps[i].0@,
            keys_view(keys@) == dropped_keys(ps),
        decreases qs.len() - k,
    {
        let q = &queries[k];
        let ghost qp = q.params@;
        let ghost before = ps;
        assert(qs.take(k + 1).drop_last() =~= qs.take(k as int));
        assert(qs.take(k + 1).last() == *q);
        assert(before + qp.take(0) =~= before);
        let mut m: usize = 0;
        while m < q.params.len()
            invariant
                qp == q.params@,
                m <= qp.len(),
                ps == before + qp.take(m as int),
                seen@.len() == ps.len(),
                forall|i: int| 0 <= i < ps.len() ==> (#[trigger] seen@[i])@ == ps[i].0@,
                keys_view(keys@) == dropped_keys(ps),
            decreases qp.len() - m,
        {
            let key = &q.params[m].0;
            let dup = has_string(&seen, key);
            let ghost prev = ps;
            proof {
                ps = ps.push(qp[m as int]);
                assert(before + qp.take(m + 1) =~= ps);
                assert(ps.drop_last() =~= prev);
                if dup {
                    let i = choose|i: int| 0 <= i < seen@.len() && seen@[i]@ == key@;
                    assert(prev[i].0@ == key@);
                }
                if has_key(prev, key@) {
                    let i = choose|i: int| 0 <= i < prev.len() && prev[i].0@ == key@;
                    assert(seen@[i]@ == key@);
                }
            }
            if dup {
                let ghost kb = keys@;
                keys.push(key.clone());
                assert(keys_view(keys@) =~= keys_view(kb).push(key@));
            }
            seen.push(key.clone());
            m = m + 1;
        }
        assert(qp.take(qp.len() as int) =~= qp);
        k = k + 1;
    }
    assert(qs.take(qs.len() as int) =~= qs);
    keys
}

/// Every pair given to [`combine_queries`] is either kept or reported by
/// [`duplicated_keys`], never both.
pub proof fn lemma_kept_or_dropped<V>(ps: Seq<(String, V)>)
    ensures
        first_of_each_key(ps).len() + dropped_keys(ps).len() == ps.len(),
    decreases ps.len(),
{
    if ps.len() > 0 {
        lemma_kept_or_dropped(ps.drop_last());
        lemma_combined_first_value(ps.drop_last(), ps.last().0@);
    }
}

/// Appending a query appends its text and a newline to the combined text,
/// whatever came before.
pub proof fn lemma_combined_text_push<V>(qs: Seq<CypherQuery<V>>, q: CypherQuery<V>)
    ensures
        combined_text(qs.push(q)) == combined_text(qs) + q.text@.push('\n'),
{
    assert(qs.push(q).drop_last() =~= qs);
}

/// The combined text of two runs of queries is that of the first followed by
/// that of the second; its length is that of all the texts plus one newline
/// each.
pub proof fn lemma_combined_text_append<V>(a: Seq<CypherQuery<V>>, b: Seq<CypherQuery<V>>)
    ensures
        combined_text(a + b) == combined_text(a) + combined_text(b),
        combined_text(b).len() == texts_len(b) + b.len(),
    decreases b.len(),
{
    if b.len() == 0 {
        assert(a + b =~= a);
        assert(combined_text(a) + combined_text(b) =~= combined_text(a));
    } else {
        lemma_combined_text_append(a, b.drop_last());
        assert((a + b).drop_last() =~= a + b.drop_last());
        assert((a + b).last() == b.last());
        assert(combined_text(a + b) =~= combined_text(a) + combined_text(b));
    }
}

/// The total length of the queries' texts.
pub open spec fn texts_len<V>(qs: Seq<CypherQuery<V>>) -> int
    decreases qs.len(),
{
    if qs.len() == 0 {
        0
    } else {
        texts_len(qs.drop_last()) + qs.last().text@.len()
    }
}

/// Appending a query appends its parameters, whatever came before.
pub proof fn lemma_all_params_push<V>(qs: Seq<CypherQuery<V>>, q: CypherQuery<V>)
    ensures
        all_params(qs.push(q)) == all_params(qs) + q.params@,
{
    assert(qs.push(q).drop_last() =~= qs);
}

/// Keeping the first pair of each key leaves no key twice.
pub proof fn lemma_combined_keys_distinct<V>(ps: Seq<(String, V)>)
    ensures
        keys_distinct(first_of_each_key(ps)),
    decreases ps.len(),
{
    if ps.len() > 0 {
        lemma_combined_keys_distinct(ps.drop_last());
    }
}

/// Keeping the first pair of each key keeps, for every key, the value first
/// given for it, and no key that was not given.
pub proof fn lemma_combined_first_value<V>(ps: Seq<(String, V)>, key: Seq<char>)
    ensures
        first_value(first_of_each_key(ps), key) == first_value(ps, key),
        has_key(first_of_each_key(ps), key) == has_key(ps, key),
    decreases ps.len(),
{
    if ps.len() > 0 {
        let pre = ps.drop_last();
        let kept = first_of_each_key(pre);
        lemma_combined_first_value(pre, key);
        lemma_first_value_some(kept, key);
        lemma_first_value_some(pre, key);
        lemma_first_value_some(ps, key);
        if !has_key(kept, ps.last().0@) {
            let longer = kept.push(ps.last());
            assert(longer.drop_last() =~= kept);
            lemma_first_value_some(longer, key);
            if has_key(ps, key) && !has_key(pre, key) {
                assert(longer[longer.len() - 1].0@ == key);
            }
            if has_key(longer, key) && !has_key(kept, key) {
                let i = choose|i: int| 0 <= i < longer.len() && longer[i].0@ == key;
                assert(i == longer.len() - 1);
            }
        } else {
            let k = choose|i: int| 0 <= i < kept.len() && kept[i].0@ == ps.last().0@;
            if has_key(ps, key) && !has_key(pre, key) {
                assert(ps.last().0@ == key);
                assert(has_key(pre, key));
            }
        }
    }
}

proof fn lemma_first_value_some<V>(ps: Seq<(String, V)>, key: Seq<char>)
    ensures
        first_value(ps, key) is Some <==> has_key(ps, key),
    decreases ps.len(),
{
    if ps.len() > 0 {
        lemma_first_value_some(ps.drop_last(), key);
        if has_key(ps, key) && !has_key(ps.drop_last(), key) {
            let i = choose|i: int| 0 <= i < ps.len() && ps[i].0@ == key;
            if i < ps.len() - 1 {
                assert(ps.drop_last()[i].0@ == key);
            }
        }
        if has_key(ps.drop_last(), key) {
            let i = choose|i: int| 0 <= i < ps.len() - 1 && ps.drop_last()[i].0@ == key;
            assert(ps[i].0@ == key);
        }
    }
}

} // verus!
