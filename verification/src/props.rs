//! Property flattening: turning an element's tag list into its output
//! property mapping.  Each distinct key appears once, in the order of its
//! first occurrence; the values recorded for it keep their input order.
//! A key seen with one value becomes a scalar property downstream, one seen
//! with several values an array property — the tag source normally forbids
//! repeated keys, but the flattening handles them all the same.

use vstd::prelude::*;

use crate::tags::TagInner;

verus! {

/// One output property: a key with every value seen for it, in input order.
pub struct Property {
    pub key: String,
    pub values: Vec<String>,
}

impl View for Property {
    type V = (Seq<char>, Seq<Seq<char>>);

    open spec fn view(&self) -> (Seq<char>, Seq<Seq<char>>) {
        (self.key@, self.values.deep_view())
    }
}

impl DeepView for Property {
    type V = (Seq<char>, Seq<Seq<char>>);

    open spec fn deep_view(&self) -> (Seq<char>, Seq<Seq<char>>) {
        self.view()
    }
}

/// Whether the grouped list already holds key `k`.
pub open spec fn group_has_key(g: Seq<(Seq<char>, Seq<Seq<char>>)>, k: Seq<char>) -> bool {
    exists|i: int| 0 <= i < g.len() && g[i].0 == k
}

/// The first position of key `k` in the grouped list.
pub open spec fn group_index_of(g: Seq<(Seq<char>, Seq<Seq<char>>)>, k: Seq<char>) -> int
    decreases g.len(),
{
    if g.len() == 0 {
        0
    } else if g[0].0 == k {
        0
    } else {
        1 + group_index_of(g.drop_first(), k)
    }
}

pub proof fn lemma_group_index_of(g: Seq<(Seq<char>, Seq<Seq<char>>)>, k: Seq<char>)
    requires
        group_has_key(g, k),
    ensures
        0 <= group_index_of(g, k) < g.len(),
        g[group_index_of(g, k)].0 == k,
        forall|j: int| 0 <= j < group_index_of(g, k) ==> g[j].0 != k,
    decreases g.len(),
{
    if g.len() == 0 {
    } else if g[0].0 == k {
    } else {
        assert(group_has_key(g.drop_first(), k)) by {
            let i = choose|i: int| 0 <= i < g.len() && g[i].0 == k;
            assert(g.drop_first()[i - 1] == g[i]);
        }
        lemma_group_index_of(g.drop_first(), k);
        let i = group_index_of(g, k);
        assert(g[i] == g.drop_first()[i - 1]);
        assert(forall|j: int| 1 <= j < i ==> g[j] == g.drop_first()[j - 1]);
    }
}

/// The flattening of a tag list: walking the tags in order, a new key opens
/// a fresh property at the end, a known key appends its value to the
/// property already opened for it.
pub open spec fn group_tags(tags: Seq<(Seq<char>, Seq<char>)>) -> Seq<(Seq<char>, Seq<Seq<char>>)>
    decreases tags.len(),
{
    if tags.len() == 0 {
        Seq::empty()
    } else {
        let g = group_tags(tags.drop_last());
        let t = tags.last();
        if group_has_key(g, t.0) {
            let i = group_index_of(g, t.0);
            g.update(i, (t.0, g[i].1.push(t.1)))
        } else {
            g.push((t.0, seq![t.1]))
        }
    }
}

/// Whether some tag of the list carries key `k`.
pub open spec fn tags_have_key(tags: Seq<(Seq<char>, Seq<char>)>, k: Seq<char>) -> bool {
    exists|i: int| 0 <= i < tags.len() && tags[i].0 == k
}

/// The flattening neither invents nor drops keys: the grouped list holds
/// exactly the keys of the tag list.
pub proof fn lemma_group_tags_keys(tags: Seq<(Seq<char>, Seq<char>)>)
    ensures
        forall|k: Seq<char>| group_has_key(group_tags(tags), k) <==> tags_have_key(tags, k),
    decreases tags.len(),
{
    if tags.len() == 0 {
    } else {
        let pre = tags.drop_last();
        let t = tags.last();
        let g = group_tags(pre);
        let g2 = group_tags(tags);
        lemma_group_tags_keys(pre);
        assert forall|k: Seq<char>| group_has_key(g2, k) implies tags_have_key(tags, k) by {
            let i = choose|i: int| 0 <= i < g2.len() && g2[i].0 == k;
            if g2[i].0 == t.0 {
                assert(tags[tags.len() - 1].0 == k);
            } else {
                if group_has_key(g, t.0) {
                    let q = group_index_of(g, t.0);
                    lemma_group_index_of(g, t.0);
                    assert(g2 == g.update(q, (t.0, g[q].1.push(t.1))));
                    assert(i != q);
                    assert(g[i].0 == k);
                } else {
                    assert(g2 == g.push((t.0, seq![t.1])));
                    assert(i != g.len());
                    assert(g[i].0 == k);
                }
                assert(group_has_key(g, k));
                assert(tags_have_key(pre, k));
                let j = choose|j: int| 0 <= j < pre.len() && pre[j].0 == k;
                assert(tags[j].0 == k);
            }
        }
        assert forall|k: Seq<char>| tags_have_key(tags, k) implies group_has_key(g2, k) by {
            let i = choose|i: int| 0 <= i < tags.len() && tags[i].0 == k;
            if i == tags.len() - 1 {
                if group_has_key(g, t.0) {
                    let q = group_index_of(g, t.0);
                    lemma_group_index_of(g, t.0);
                    assert(g2 == g.update(q, (t.0, g[q].1.push(t.1))));
                    assert(g2[q].0 == k);
                } else {
                    assert(g2 == g.push((t.0, seq![t.1])));
                    assert(g2[g2.len() - 1].0 == k);
                }
            } else {
                assert(pre[i].0 == k);
                assert(tags_have_key(pre, k));
                assert(group_has_key(g, k));
                let p = choose|p: int| 0 <= p < g.len() && g[p].0 == k;
                if group_has_key(g, t.0) {
                    let q = group_index_of(g, t.0);
                    lemma_group_index_of(g, t.0);
                    assert(g2 == g.update(q, (t.0, g[q].1.push(t.1))));
                    if p == q {
                        assert(g[q].0 == t.0);
                        assert(g2[q].0 == t.0);
                        assert(g2[q].0 == k);
                    } else {
                        assert(g2[p].0 == k);
                    }
                } else {
                    assert(g2 == g.push((t.0, seq![t.1])));
                    assert(g2[p].0 == k);
                }
            }
        }
    }
}

/// The first position of `key` among the properties built so far.
fn find_key(props: &Vec<Property>, key: &String) -> (r: Option<usize>)
    ensures
        r is Some <==> group_has_key(props.deep_view(), key@),
        r matches Some(j) ==> j < props.len() && j == group_index_of(props.deep_view(), key@),
{
    let n = props.len();
    let mut j: usize = 0;
    while j < n
        invariant
            j <= n,
            n == props.len(),
            forall|k: int| 0 <= k < j ==> props.deep_view()[k].0 != key@,
        decreases n - j,
    {
        if props[j].key == *key {
            proof {
                assert(props.deep_view()[j as int].0 == key@);
                lemma_group_index_of(props.deep_view(), key@);
                assert forall|p: int| 0 <= p < props.deep_view().len() && props.deep_view()[p].0
                    == key@ implies p >= j by {}
                assert(group_index_of(props.deep_view(), key@) == j);
            }
            return Some(j);
        }
        j = j + 1;
    }
    proof {
        assert(!group_has_key(props.deep_view(), key@)) by {
            if group_has_key(props.deep_view(), key@) {
                let i = choose|i: int| 0 <= i < props.deep_view().len() && props.deep_view()[i].0
                    == key@;
            }
        }
    }
    None
}

/// Flattens a tag list into its property mapping: one property per distinct
/// key, in first-occurrence order, holding that key's values in input order.
pub fn properties_from_tags(tags: &Vec<TagInner>) -> (r: Vec<Property>)
    ensures
        r.deep_view() == group_tags(tags.deep_view()),
{
    let mut props: Vec<Property> = Vec::new();
    let n = tags.len();
    let mut i: usize = 0;
    proof {
        assert(tags.deep_view().take(0) =~= Seq::<(Seq<char>, Seq<char>)>::empty());
        assert(props.deep_view() =~~= group_tags(tags.deep_view().take(0)));
    }
    while i < n
        invariant
            i <= n,
            n == tags.len(),
            props.deep_view() == group_tags(tags.deep_view().take(i as int)),
        decreases n - i,
    {
        let ghost prefix = tags.deep_view().take(i as int);
        let ghost next = tags.deep_view().take(i as int + 1);
        proof {
            assert(next.drop_last() =~= prefix);
            assert(next.last() == tags.deep_view()[i as int]);
            assert(tags.deep_view()[i as int] == tags[i as int]@);
        }
        let tag = &tags[i];
        match find_key(&props, &tag.0) {
            Some(j) => {
                let ghost old_props = props.deep_view();
                let mut entry = props.remove(j);
                entry.values.push(tag.1.clone());
                proof {
                    assert(entry@.1 =~~= old_props[j as int].1.push(tag@.1));
                }
                props.insert(j, entry);
                proof {
                    lemma_group_index_of(old_props, tag@.0);
                    assert(old_props[j as int].0 == tag@.0);
                    assert(props.deep_view() =~~= old_props.update(
                        j as int,
                        (tag@.0, old_props[j as int].1.push(tag@.1)),
                    ));
                    assert(props.deep_view() =~~= group_tags(next));
                }
            },
            None => {
                let mut values: Vec<String> = Vec::new();
                values.push(tag.1.clone());
                let ghost old_props = props.deep_view();
                let ghost vals_view = values.deep_view();
                props.push(Property { key: tag.0.clone(), values });
                proof {
                    assert(vals_view =~~= seq![tag@.1]);
                    assert(props.deep_view() =~~= old_props.push((tag@.0, seq![tag@.1])));
                    assert(props.deep_view() =~~= group_tags(next));
                }
            },
        }
        i = i + 1;
    }
    proof {
        assert(tags.deep_view().take(n as int) =~= tags.deep_view());
    }
    props
}

} // verus!
