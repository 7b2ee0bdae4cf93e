//! The round-trip law: a flat object's tokens, resolved through a
//! mapping whose metadata entries echo every original path, reproduce
//! the original key/value pairs.

use vstd::prelude::*;
use vstd::seq_lib::group_to_multiset_ensures;

use crate::json::fields_get;
use crate::json::obj_get;
use crate::json::SpecJson;
use crate::model::SpecError;
use crate::paths::has_wildcard;
use crate::tokenize::index_of_record;
use crate::tokenize::spec_flatten;
use crate::tokenize::spec_flatten_fields;
use crate::tokenize::SpecToken;
use crate::transformer::matching_values;
use crate::transformer::spec_get_metadata;
use crate::transformer::spec_metadata_fields;

verus! {

/// A flat object's tokens are its fields, one leaf token each, in
/// field order.
proof fn lemma_flat_tokens(fields: Seq<(Seq<char>, SpecJson)>, root: Seq<char>)
    requires
        forall|i: int|
            0 <= i < fields.len() ==> !((#[trigger] fields[i]).1 is Obj) && !(fields[i].1 is Arr),
    ensures
        spec_flatten_fields(fields, root).len() == fields.len(),
        forall|i: int|
            0 <= i < fields.len() ==> #[trigger] spec_flatten_fields(fields, root)[i] == (SpecToken {
                path: root + seq!['.'] + fields[i].0,
                value: fields[i].1,
            }),
    decreases fields.len(),
{
    if fields.len() > 0 {
        lemma_flat_tokens(fields.drop_first(), root);
        assert(spec_flatten(fields[0].1, root + seq!['.'] + fields[0].0) == seq![
            SpecToken { path: root + seq!['.'] + fields[0].0, value: fields[0].1 },
        ]);
        assert forall|i: int|
            0 <= i < fields.len() implies #[trigger] spec_flatten_fields(fields, root)[i]
            == (SpecToken { path: root + seq!['.'] + fields[i].0, value: fields[i].1 }) by {
            if i > 0 {
                assert(spec_flatten_fields(fields, root)[i] == spec_flatten_fields(
                    fields.drop_first(),
                    root,
                )[i - 1]);
                assert(fields.drop_first()[i - 1] == fields[i]);
            }
        }
    }
}

/// An index without any token at path `p` yields no match.
proof fn lemma_count_zero_no_match(ts: Seq<SpecToken>, p: Seq<char>)
    requires
        !has_wildcard(p),
        forall|u: SpecJson|
            #[trigger] ts.to_multiset().count(SpecToken { path: p, value: u }) == 0,
    ensures
        matching_values(ts, p) == Seq::<SpecJson>::empty(),
    decreases ts.len(),
{
    broadcast use group_to_multiset_ensures;

    if ts.len() > 0 {
        let h = ts[0];
        assert(ts.contains(h));
        assert(ts.to_multiset().count(h) > 0);
        assert(h.path != p) by {
            if h.path == p {
                assert(h == SpecToken { path: p, value: h.value });
            }
        }
        let rest = ts.drop_first();
        assert(rest =~= ts.remove(0));
        assert(rest.to_multiset() == ts.to_multiset().remove(h));
        assert forall|u: SpecJson|
            #[trigger] rest.to_multiset().count(SpecToken { path: p, value: u }) == 0 by {
            assert(SpecToken { path: p, value: u } != h);
        }
        lemma_count_zero_no_match(rest, p);
    }
}

/// An index holding exactly one token at path `p` yields exactly its
/// value.
proof fn lemma_unique_match(ts: Seq<SpecToken>, p: Seq<char>, v: SpecJson)
    requires
        !has_wildcard(p),
        ts.to_multiset().count(SpecToken { path: p, value: v }) == 1,
        forall|u: SpecJson|
            u != v ==> #[trigger] ts.to_multiset().count(SpecToken { path: p, value: u }) == 0,
    ensures
        matching_values(ts, p) == seq![v],
    decreases ts.len(),
{
    broadcast use group_to_multiset_ensures;

    assert(ts.to_multiset().contains(SpecToken { path: p, value: v }));
    assert(ts.contains(SpecToken { path: p, value: v }));
    assert(ts.len() > 0);
    let h = ts[0];
    let rest = ts.drop_first();
    assert(rest =~= ts.remove(0));
    assert(rest.to_multiset() == ts.to_multiset().remove(h));
    if h.path == p {
        assert(h == SpecToken { path: p, value: h.value });
        assert(ts.contains(h));
        assert(ts.to_multiset().count(h) > 0);
        assert(h.value == v);
        assert forall|u: SpecJson|
            #[trigger] rest.to_multiset().count(SpecToken { path: p, value: u }) == 0 by {
            if u == v {
            } else {
                assert(SpecToken { path: p, value: u } != h);
            }
        }
        lemma_count_zero_no_match(rest, p);
        assert(crate::paths::path_matches(p, h.path));
        assert(matching_values(ts, p) =~= seq![v]);
    } else {
        assert forall|u: SpecJson|
            u != v implies #[trigger] rest.to_multiset().count(SpecToken { path: p, value: u })
            == 0 by {
            assert(SpecToken { path: p, value: u } != h);
        }
        assert(rest.to_multiset().count(SpecToken { path: p, value: v }) == 1) by {
            assert(SpecToken { path: p, value: v } != h);
        }
        lemma_unique_match(rest, p, v);
        assert(!crate::paths::path_matches(p, h.path));
    }
}

/// Looking a key up finds the first field that carries it.
proof fn lemma_fields_get_at(fields: Seq<(Seq<char>, SpecJson)>, i: int)
    requires
        0 <= i < fields.len(),
        forall|j: int| 0 <= j < i ==> (#[trigger] fields[j]).0 != fields[i].0,
    ensures
        fields_get(fields, fields[i].0) == Some(fields[i].1),
    decreases i,
{
    if i > 0 {
        assert(fields[0].0 != fields[i].0);
        assert(fields.drop_first()[i - 1] == fields[i]);
        assert forall|j: int|
            0 <= j < i - 1 implies (#[trigger] fields.drop_first()[j]).0 != fields.drop_first()[i
            - 1].0 by {
            assert(fields.drop_first()[j] == fields[j + 1]);
        }
        lemma_fields_get_at(fields.drop_first(), i - 1);
    }
}

/// Appending to a common prefix is injective.
proof fn lemma_append_injective(root: Seq<char>, a: Seq<char>, b: Seq<char>)
    requires
        root + a == root + b,
    ensures
        a == b,
{
    assert(a.len() == b.len()) by {
        assert((root + a).len() == root.len() + a.len());
        assert((root + b).len() == root.len() + b.len());
    }
    assert forall|t: int| 0 <= t < a.len() implies a[t] == b[t] by {
        assert((root + a)[root.len() + t] == a[t]);
        assert((root + b)[root.len() + t] == b[t]);
    }
    assert(a =~= b);
}

/// The conditions of the round trip: a flat object with distinct,
/// marker-free keys, its token index, and a metadata mapping that
/// echoes every original path unchanged.
pub open spec fn echo_setup(
    ts: Seq<SpecToken>,
    fields: Seq<(Seq<char>, SpecJson)>,
    md_fields: Seq<(Seq<char>, SpecJson)>,
) -> bool {
    &&& forall|i: int|
        0 <= i < fields.len() ==> !((#[trigger] fields[i]).1 is Obj) && !(fields[i].1 is Arr)
    &&& forall|i: int, j: int| 0 <= i < j < fields.len() ==> fields[i].0 != fields[j].0
    &&& forall|i: int| 0 <= i < fields.len() ==> !has_wildcard("$."@ + (#[trigger] fields[i]).0)
    &&& index_of_record(ts, SpecJson::Obj(fields))
    &&& md_fields.len() == fields.len()
    &&& forall|i: int|
        0 <= i < fields.len() ==> (#[trigger] md_fields[i]).0 == fields[i].0 && md_fields[i].1
            == SpecJson::Str("$."@ + fields[i].0)
}

/// Under the echo setup, each echoed pattern matches exactly its
/// field's value in the token index.
proof fn lemma_echo_counts(
    ts: Seq<SpecToken>,
    fields: Seq<(Seq<char>, SpecJson)>,
    md_fields: Seq<(Seq<char>, SpecJson)>,
    i: int,
)
    requires
        echo_setup(ts, fields, md_fields),
        0 <= i < fields.len(),
    ensures
        matching_values(ts, "$."@ + fields[i].0) == seq![fields[i].1],
{
    broadcast use group_to_multiset_ensures;

    let root = "$"@;
    reveal_strlit("$");
    reveal_strlit("$.");
    assert("$."@ =~= root + seq!['.']);
    let flat = spec_flatten_fields(fields, root);
    lemma_flat_tokens(fields, root);
    assert(spec_flatten(SpecJson::Obj(fields), root) == flat);
    let p = root + seq!['.'] + fields[i].0;
    assert("$."@ + fields[i].0 =~= p);
    let target = SpecToken { path: p, value: fields[i].1 };
    // the flat tokens hold no duplicates
    assert forall|a: int, b: int| 0 <= a < b < flat.len() implies flat[a] != flat[b] by {
        if flat[a] == flat[b] {
            lemma_append_injective(root + seq!['.'], fields[a].0, fields[b].0);
        }
    }
    assert(flat.no_duplicates());
    flat.lemma_multiset_has_no_duplicates();
    assert(flat[i] == target);
    assert(flat.contains(target));
    assert(flat.to_multiset().count(target) == 1);
    // no other value lives at that path
    assert forall|u: SpecJson|
        u != fields[i].1 implies #[trigger] flat.to_multiset().count(
        SpecToken { path: p, value: u },
    ) == 0 by {
        let other = SpecToken { path: p, value: u };
        if flat.to_multiset().count(other) > 0 {
            assert(flat.contains(other));
            let k = choose|k: int| 0 <= k < flat.len() && flat[k] == other;
            lemma_append_injective(root + seq!['.'], fields[k].0, fields[i].0);
        }
    }
    assert(ts.to_multiset() == flat.to_multiset());
    lemma_unique_match(ts, p, fields[i].1);
}

/// Under the echo setup, resolving the metadata fields from `i` on
/// reproduces the original fields from `i` on.
proof fn lemma_echo_fields(
    ts: Seq<SpecToken>,
    m: SpecJson,
    fields: Seq<(Seq<char>, SpecJson)>,
    md_fields: Seq<(Seq<char>, SpecJson)>,
    i: int,
)
    requires
        echo_setup(ts, fields, md_fields),
        m == SpecJson::Obj(md_fields),
        0 <= i <= fields.len(),
    ensures
        spec_metadata_fields(ts, m, md_fields.skip(i)) == Ok::<_, SpecError>(fields.skip(i)),
    decreases fields.len() - i,
{
    if i == fields.len() {
        assert(md_fields.skip(i) =~= Seq::<(Seq<char>, SpecJson)>::empty());
        assert(fields.skip(i) =~= Seq::<(Seq<char>, SpecJson)>::empty());
    } else {
        assert(md_fields.skip(i)[0] == md_fields[i]);
        assert forall|j: int|
            0 <= j < i implies (#[trigger] md_fields[j]).0 != md_fields[i].0 by {}
        lemma_fields_get_at(md_fields, i);
        assert(obj_get(m, md_fields[i].0) == Some(md_fields[i].1));
        let p = "$."@ + fields[i].0;
        lemma_echo_counts(ts, fields, md_fields, i);
        assert(matching_values(ts, p) == seq![fields[i].1]);
        assert(crate::transformer::spec_token_search(ts, p, true) == Ok::<
            Option<Seq<SpecJson>>,
            SpecError,
        >(Some(seq![fields[i].1])));
        assert(crate::transformer::spec_get_single(ts, m, md_fields[i].0) == Ok::<
            Option<SpecJson>,
            SpecError,
        >(Some(fields[i].1)));
        assert(md_fields.skip(i).drop_first() =~= md_fields.skip(i + 1));
        lemma_echo_fields(ts, m, fields, md_fields, i + 1);
        assert(seq![(md_fields[i].0, fields[i].1)] + fields.skip(i + 1) =~= fields.skip(i));
    }
}

/// The round trip: a flat object's token index, resolved through a
/// mapping whose metadata entries echo every original path unchanged,
/// reproduces the original key/value pairs exactly, in order.
pub proof fn lemma_flat_metadata_round_trip(
    ts: Seq<SpecToken>,
    mapping: SpecJson,
    fields: Seq<(Seq<char>, SpecJson)>,
    md_fields: Seq<(Seq<char>, SpecJson)>,
)
    requires
        echo_setup(ts, fields, md_fields),
        obj_get(mapping, "metadata"@) == Some(SpecJson::Obj(md_fields)),
    ensures
        spec_get_metadata(ts, mapping) == Ok::<Option<SpecJson>, SpecError>(
            Some(SpecJson::Obj(fields)),
        ),
{
    lemma_echo_fields(ts, SpecJson::Obj(md_fields), fields, md_fields, 0);
    assert(md_fields.skip(0) =~= md_fields);
    assert(fields.skip(0) =~= fields);
}

} // verus!
