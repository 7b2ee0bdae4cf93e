//! Resolving path expressions against a token index and assembling the
//! resolved values into output documents.

use rayon::iter::IntoParallelRefIterator;
use rayon::iter::ParallelIterator;
use vstd::prelude::*;
use vstd::string::StringExecFns;

use crate::json::obj_get;
use crate::json::JsonValue;
use crate::json::SpecJson;
use crate::model::ContentData;
use crate::model::ContentModel;
use crate::model::SpecContentData;
use crate::model::SpecContentModel;
use crate::model::SpecError;
use crate::model::SpecTableModel;
use crate::model::TableModel;
use crate::model::TransformError;
use crate::paths::has_wildcard;
use crate::paths::lemma_lex_le_lt;
use crate::paths::lemma_lex_le_total;
use crate::paths::lemma_lex_lt_le;
use crate::paths::lex_le;
use crate::paths::path_matches;
use crate::paths::pattern_matches;
use crate::paths::pattern_well_formed;
use crate::paths::str_cmp;
use crate::paths::well_formed_pattern;
use crate::tokenize::sorted_tokens;
use crate::tokenize::SpecToken;
use crate::tokenize::Token;
use crate::tokenize::TokenIndex;

verus! {

/// The values of the tokens whose path the pattern accepts, in index
/// order.
pub open spec fn matching_values(ts: Seq<SpecToken>, pattern: Seq<char>) -> Seq<SpecJson>
    decreases ts.len(),
{
    if ts.len() == 0 {
        Seq::empty()
    } else {
        let rest = matching_values(ts.drop_first(), pattern);
        if path_matches(pattern, ts[0].path) {
            seq![ts[0].value] + rest
        } else {
            rest
        }
    }
}

/// The tokens whose path equals `p`, in index order.
pub open spec fn tokens_with_path(ts: Seq<SpecToken>, p: Seq<char>) -> Seq<SpecToken>
    decreases ts.len(),
{
    if ts.len() == 0 {
        Seq::empty()
    } else {
        let rest = tokens_with_path(ts.drop_first(), p);
        if ts[0].path == p {
            seq![ts[0]] + rest
        } else {
            rest
        }
    }
}

/// The tokens whose path the pattern accepts, in index order.
pub open spec fn matching_tokens(ts: Seq<SpecToken>, pattern: Seq<char>) -> Seq<SpecToken>
    decreases ts.len(),
{
    if ts.len() == 0 {
        Seq::empty()
    } else {
        let rest = matching_tokens(ts.drop_first(), pattern);
        if path_matches(pattern, ts[0].path) {
            seq![ts[0]] + rest
        } else {
            rest
        }
    }
}

/// Without a marker, the accepted tokens are those with the pattern as
/// their path.
proof fn lemma_matching_tokens_exact(ts: Seq<SpecToken>, p: Seq<char>)
    requires
        !has_wildcard(p),
    ensures
        matching_tokens(ts, p) == tokens_with_path(ts, p),
    decreases ts.len(),
{
    if ts.len() > 0 {
        lemma_matching_tokens_exact(ts.drop_first(), p);
    }
}

/// The tokens under a content entry's field subtrees: each field of
/// the entry that holds a pattern contributes its matches, a nested
/// object its own fields' matches, in field order.
pub open spec fn spec_all_matches(ts: Seq<SpecToken>, entry: SpecJson) -> Result<
    Seq<SpecToken>,
    SpecError,
>
    decreases entry,
{
    match entry {
        SpecJson::Obj(fields) => spec_all_matches_fields(ts, fields),
        _ => Err(SpecError::Configuration("content entry must be an object"@)),
    }
}

/// The matches of an object's fields, folded in field order; the first
/// unusable field decides the error.
pub open spec fn spec_all_matches_fields(
    ts: Seq<SpecToken>,
    fields: Seq<(Seq<char>, SpecJson)>,
) -> Result<Seq<SpecToken>, SpecError>
    decreases fields,
{
    if fields.len() == 0 {
        Ok(Seq::empty())
    } else {
        let head = match fields[0].1 {
            SpecJson::Obj(_) => spec_all_matches(ts, fields[0].1),
            SpecJson::Str(s) => if has_wildcard(s) && !well_formed_pattern(s) {
                Err(SpecError::Configuration("invalid path expression: "@ + s))
            } else {
                Ok(matching_tokens(ts, s))
            },
            _ => Err(SpecError::Configuration("path expression must be a string"@)),
        };
        match head {
            Err(e) => Err(e),
            Ok(ks) => match spec_all_matches_fields(ts, fields.drop_first()) {
                Err(e) => Err(e),
                Ok(rest) => Ok(ks + rest),
            },
        }
    }
}

/// Whether the tokens with path `p` are exactly the run from `lo` to
/// `hi`, with nothing equal outside it.
pub open spec fn contiguous_window(ts: Seq<SpecToken>, p: Seq<char>, lo: int, hi: int) -> bool {
    &&& 0 <= lo <= hi <= ts.len()
    &&& tokens_with_path(ts, p) == ts.subrange(lo, hi)
    &&& forall|t: int| lo <= t < hi ==> (#[trigger] ts[t]).path == p
    &&& forall|t: int| (0 <= t < lo || hi <= t < ts.len()) ==> (#[trigger] ts[t]).path != p
}

/// In a sorted index the tokens with one path stand in one contiguous
/// run: what the range reducer returns is that run, and nothing else.
pub proof fn lemma_equal_range_contiguous(ts: Seq<SpecToken>, p: Seq<char>)
    requires
        sorted_tokens(ts),
    ensures
        exists|lo: int, hi: int| #[trigger] contiguous_window(ts, p, lo, hi),
    decreases ts.len(),
{
    if ts.len() == 0 {
        assert(tokens_with_path(ts, p) =~= ts.subrange(0, 0));
        assert(contiguous_window(ts, p, 0, 0));
    } else {
        let h = ts[0];
        let rest = ts.drop_first();
        assert(forall|j: int| 0 <= j < rest.len() ==> #[trigger] rest[j] == ts[j + 1]);
        assert(sorted_tokens(rest));
        lemma_equal_range_contiguous(rest, p);
        let (lo2, hi2) = choose|lo2: int, hi2: int| #[trigger] contiguous_window(rest, p, lo2, hi2);
        if h.path == p {
            if lo2 == hi2 {
                assert(tokens_with_path(rest, p) =~= Seq::<SpecToken>::empty());
                assert(tokens_with_path(ts, p) =~= ts.subrange(0, 1));
                assert forall|t: int| 1 <= t < ts.len() implies (#[trigger] ts[t]).path != p by {
                    assert(rest[t - 1].path != p);
                }
                assert(contiguous_window(ts, p, 0, 1));
            } else {
                assert(lo2 == 0) by {
                    if lo2 > 0 {
                        assert(rest[0].path != p);
                        assert(lex_le(ts[0].path, ts[1].path));
                        assert(lex_le(ts[1].path, ts[lo2 + 1].path));
                        assert(rest[lo2].path == p);
                        crate::paths::lemma_lex_le_antisym(ts[1].path, p);
                    }
                }
                assert(tokens_with_path(ts, p) =~= seq![h] + rest.subrange(0, hi2));
                assert(tokens_with_path(ts, p) =~= ts.subrange(0, hi2 + 1));
                assert forall|t: int| 0 <= t < hi2 + 1 implies (#[trigger] ts[t]).path == p by {
                    if t > 0 {
                        assert(rest[t - 1].path == p);
                    }
                }
                assert forall|t: int| hi2 + 1 <= t < ts.len() implies (#[trigger] ts[t]).path
                    != p by {
                    assert(rest[t - 1].path != p);
                }
                assert(contiguous_window(ts, p, 0, hi2 + 1));
            }
        } else {
            assert(tokens_with_path(ts, p) =~= rest.subrange(lo2, hi2));
            assert(tokens_with_path(ts, p) =~= ts.subrange(lo2 + 1, hi2 + 1));
            assert forall|t: int| lo2 + 1 <= t < hi2 + 1 implies (#[trigger] ts[t]).path == p by {
                assert(rest[t - 1].path == p);
            }
            assert forall|t: int|
                (0 <= t < lo2 + 1 || hi2 + 1 <= t < ts.len()) implies (#[trigger] ts[t]).path
                != p by {
                if t > 0 {
                    assert(rest[t - 1].path != p);
                }
            }
            assert(contiguous_window(ts, p, lo2 + 1, hi2 + 1));
        }
    }
}

/// What a search returns: a configuration error on an unusable
/// pattern; otherwise the matching values, all of them or only the
/// first, and `None` when nothing matched.
pub open spec fn spec_token_search(ts: Seq<SpecToken>, pattern: Seq<char>, first: bool) -> Result<
    Option<Seq<SpecJson>>,
    SpecError,
> {
    if has_wildcard(pattern) && !well_formed_pattern(pattern) {
        Err(SpecError::Configuration("invalid path expression: "@ + pattern))
    } else {
        let ms = matching_values(ts, pattern);
        if ms.len() == 0 {
            Ok(None)
        } else if first {
            Ok(Some(seq![ms[0]]))
        } else {
            Ok(Some(ms))
        }
    }
}

/// The first matching value, if any.
pub open spec fn spec_first_match(ts: Seq<SpecToken>, pattern: Seq<char>) -> Option<SpecJson> {
    let ms = matching_values(ts, pattern);
    if ms.len() > 0 {
        Some(ms[0])
    } else {
        None
    }
}

/// The enumeration of a wildcard pattern under the bounds `bs`: the
/// first bound's indices are substituted for the first marker in turn,
/// the remaining bounds enumerate the remaining markers; with one bound
/// left, each concrete path contributes its first match, or a null
/// placeholder.
pub open spec fn spec_enumerate(ts: Seq<SpecToken>, pat: Seq<char>, bs: Seq<nat>) -> Seq<
    Option<SpecJson>,
>
    decreases bs.len(), (if bs.len() == 0 {
        0nat
    } else {
        (bs[0] + 2) as nat
    }),
{
    if bs.len() == 0 {
        Seq::empty()
    } else {
        spec_enum_upto(ts, pat, bs, (bs[0] + 1) as nat)
    }
}

/// The enumeration of the indices below `n` for the first bound.
pub open spec fn spec_enum_upto(ts: Seq<SpecToken>, pat: Seq<char>, bs: Seq<nat>, n: nat) -> Seq<
    Option<SpecJson>,
>
    decreases bs.len(), n,
{
    if bs.len() == 0 || n == 0 {
        Seq::empty()
    } else {
        let sub = crate::paths::subst_marker(pat, crate::paths::dec_rep((n - 1) as nat));
        spec_enum_upto(ts, pat, bs, (n - 1) as nat) + (if bs.len() == 1 {
            seq![spec_first_match(ts, sub)]
        } else {
            spec_enumerate(ts, sub, bs.drop_first())
        })
    }
}

/// What enumerating a pattern under a bound string returns: a
/// configuration error on an unusable pattern or bound string, else the
/// positional enumeration.
pub open spec fn spec_array_search(ts: Seq<SpecToken>, pat: Seq<char>, bound: Seq<char>) -> Result<
    Seq<Option<SpecJson>>,
    SpecError,
> {
    if has_wildcard(pat) && !well_formed_pattern(pat) {
        Err(SpecError::Configuration("invalid path expression: "@ + pat))
    } else if !crate::paths::bounds_ok(bound) {
        Err(SpecError::Configuration("invalid enumeration bound: "@ + bound))
    } else {
        Ok(spec_enumerate(ts, pat, crate::paths::parse_bounds(bound).unwrap()))
    }
}

/// What resolving one scalar field returns: a configuration error when
/// the mapping does not define `key` as a pattern string, the first
/// matching value otherwise, and `None` when nothing matched.
pub open spec fn spec_get_single(ts: Seq<SpecToken>, mapping: SpecJson, key: Seq<char>) -> Result<
    Option<SpecJson>,
    SpecError,
> {
    match obj_get(mapping, key) {
        None => Err(SpecError::Configuration(key + " mapping is required"@)),
        Some(SpecJson::Str(s)) => match spec_token_search(ts, s, true) {
            Err(e) => Err(e),
            Ok(None) => Ok(None),
            Ok(Some(vals)) => Ok(Some(vals[0])),
        },
        Some(_) => Err(SpecError::Configuration("path expression must be a string"@)),
    }
}

/// What resolving one possibly repeated field returns: the enumeration
/// under `bound` when the mapping's pattern carries the marker, the
/// single scalar result as a one-entry sequence otherwise, and an empty
/// sequence when the mapping does not define `key`.
pub open spec fn spec_get_array(
    ts: Seq<SpecToken>,
    mapping: SpecJson,
    bound: Seq<char>,
    key: Seq<char>,
) -> Result<Seq<Option<SpecJson>>, SpecError> {
    match obj_get(mapping, key) {
        None => Ok(Seq::empty()),
        Some(SpecJson::Str(s)) => if has_wildcard(s) {
            spec_array_search(ts, s, bound)
        } else {
            match spec_get_single(ts, mapping, key) {
                Err(e) => Err(e),
                Ok(opt) => Ok(seq![opt]),
            }
        },
        Some(_) => Err(SpecError::Configuration("path expression must be a string"@)),
    }
}

/// The resolved fields of a metadata object: each key that matched
/// carries its first match, unmatched keys are left out.
pub open spec fn spec_metadata_fields(
    ts: Seq<SpecToken>,
    m: SpecJson,
    fields: Seq<(Seq<char>, SpecJson)>,
) -> Result<Seq<(Seq<char>, SpecJson)>, SpecError>
    decreases fields.len(),
{
    if fields.len() == 0 {
        Ok(Seq::empty())
    } else {
        match spec_get_single(ts, m, fields[0].0) {
            Err(e) => Err(e),
            Ok(None) => spec_metadata_fields(ts, m, fields.drop_first()),
            Ok(Some(v)) => match spec_metadata_fields(ts, m, fields.drop_first()) {
                Err(e) => Err(e),
                Ok(fs) => Ok(seq![(fields[0].0, v)] + fs),
            },
        }
    }
}

/// What resolving the document-level metadata returns: nothing when the
/// mapping has no `metadata` key, the object of resolved fields when it
/// is an object, a configuration error otherwise.
pub open spec fn spec_get_metadata(ts: Seq<SpecToken>, mapping: SpecJson) -> Result<
    Option<SpecJson>,
    SpecError,
> {
    match obj_get(mapping, "metadata"@) {
        None => Ok(None),
        Some(m) => match m {
            SpecJson::Obj(fields) => match spec_metadata_fields(ts, m, fields) {
                Err(e) => Err(e),
                Ok(fs) => Ok(Some(SpecJson::Obj(fs))),
            },
            _ => Err(SpecError::Configuration("metadata mapping must be an object"@)),
        },
    }
}

/// Positional results with null placeholders in place of misses.
pub open spec fn nulls_filled(opts: Seq<Option<SpecJson>>) -> Seq<SpecJson> {
    opts.map_values(
        |o: Option<SpecJson>|
            match o {
                Some(v) => v,
                None => SpecJson::Null,
            },
    )
}

/// The resolved fields of a per-entry metadata object: every key
/// carries the array of its positional results, aligned with the
/// entry's other fields.
pub open spec fn spec_array_metadata_fields(
    ts: Seq<SpecToken>,
    m: SpecJson,
    bound: Seq<char>,
    fields: Seq<(Seq<char>, SpecJson)>,
) -> Result<Seq<(Seq<char>, SpecJson)>, SpecError>
    decreases fields.len(),
{
    if fields.len() == 0 {
        Ok(Seq::empty())
    } else {
        match spec_get_array(ts, m, bound, fields[0].0) {
            Err(e) => Err(e),
            Ok(vals) => match spec_array_metadata_fields(ts, m, bound, fields.drop_first()) {
                Err(e) => Err(e),
                Ok(fs) => Ok(seq![(fields[0].0, SpecJson::Arr(nulls_filled(vals)))] + fs),
            },
        }
    }
}

/// What resolving the per-entry metadata returns, under the shared
/// enumeration bound.
pub open spec fn spec_get_array_metadata(
    ts: Seq<SpecToken>,
    mapping: SpecJson,
    bound: Seq<char>,
) -> Result<Option<SpecJson>, SpecError> {
    match obj_get(mapping, "metadata"@) {
        None => Ok(None),
        Some(m) => match m {
            SpecJson::Obj(fields) => match spec_array_metadata_fields(ts, m, bound, fields) {
                Err(e) => Err(e),
                Ok(fs) => Ok(Some(SpecJson::Obj(fs))),
            },
            _ => Err(SpecError::Configuration("metadata mapping must be an object"@)),
        },
    }
}

/// What the shared enumeration bound of a set of matches is: the
/// positionwise maxima of the digit runs embedded in their paths,
/// joined with `|`; a data error when a maximum does not fit a machine
/// integer.
pub open spec fn spec_max_indexes(ts: Seq<SpecToken>) -> Result<Seq<char>, SpecError> {
    let paths = ts.map_values(|t: SpecToken| t.path);
    if forall|t: int|
        0 <= t < crate::paths::max_bounds(paths).len() ==> #[trigger] crate::paths::max_bounds(
            paths,
        )[t] <= usize::MAX {
        Ok(crate::paths::join_bounds(crate::paths::max_bounds(paths)))
    } else {
        Err(SpecError::Data("array index out of range in token paths"@))
    }
}

/// A data value normalized to an array: a bare scalar becomes a
/// one-element array.
pub open spec fn normalize_arr(v: SpecJson) -> SpecJson {
    match v {
        SpecJson::Arr(_) => v,
        _ => SpecJson::Arr(seq![v]),
    }
}

/// The field aligned with position `i`, null when the field list is
/// shorter or the position unmatched.
pub open spec fn aligned_at(vals: Seq<Option<SpecJson>>, i: int) -> SpecJson {
    if 0 <= i < vals.len() {
        match vals[i] {
            Some(v) => v,
            None => SpecJson::Null,
        }
    } else {
        SpecJson::Null
    }
}

/// The per-entry metadata fields aligned with position `i`: each key
/// whose resolved value is an array carries that array's value at `i`,
/// null past its end; other keys are left out.
pub open spec fn md_extras(md: Option<SpecJson>, i: int) -> Seq<(Seq<char>, SpecJson)> {
    match md {
        Some(SpecJson::Obj(fields)) => md_extras_fields(fields, i),
        _ => Seq::empty(),
    }
}

/// The aligned metadata fields, in field order.
pub open spec fn md_extras_fields(fields: Seq<(Seq<char>, SpecJson)>, i: int) -> Seq<
    (Seq<char>, SpecJson),
>
    decreases fields.len(),
{
    if fields.len() == 0 {
        Seq::empty()
    } else {
        let rest = md_extras_fields(fields.drop_first(), i);
        match fields[0].1 {
            SpecJson::Arr(vals) => seq![
                (fields[0].0, if 0 <= i < vals.len() {
                    vals[i]
                } else {
                    SpecJson::Null
                }),
            ] + rest,
            _ => rest,
        }
    }
}

/// The free-content elements assembled from position `i` on: one per
/// matched data position, its title and metadata aligned by position.
pub open spec fn spec_data_from(
    data: Seq<Option<SpecJson>>,
    title: Seq<Option<SpecJson>>,
    md: Option<SpecJson>,
    i: int,
) -> Seq<SpecContentData>
    decreases data.len() - i,
{
    if i < 0 || i >= data.len() {
        Seq::empty()
    } else {
        (match data[i] {
            Some(v) => seq![
                SpecContentData::ContentModel(
                    SpecContentModel {
                        title: aligned_at(title, i),
                        data: normalize_arr(v),
                        metadata: md_extras(md, i),
                    },
                ),
            ],
            None => Seq::empty(),
        }) + spec_data_from(data, title, md, i + 1)
    }
}

/// The free-content elements of one entry.
pub open spec fn spec_data_content(
    data: Seq<Option<SpecJson>>,
    title: Seq<Option<SpecJson>>,
    md: Option<SpecJson>,
) -> Seq<SpecContentData> {
    spec_data_from(data, title, md, 0)
}

/// The table elements assembled from position `i` on: one per matched
/// rows position, its columns, title and metadata aligned by position.
pub open spec fn spec_table_from(
    rows: Seq<Option<SpecJson>>,
    columns: Seq<Option<SpecJson>>,
    title: Seq<Option<SpecJson>>,
    md: Option<SpecJson>,
    i: int,
) -> Seq<SpecContentData>
    decreases rows.len() - i,
{
    if i < 0 || i >= rows.len() {
        Seq::empty()
    } else {
        (match rows[i] {
            Some(v) => seq![
                SpecContentData::TableModel(
                    SpecTableModel {
                        title: aligned_at(title, i),
                        rows: v,
                        columns: aligned_at(columns, i),
                        metadata: md_extras(md, i),
                    },
                ),
            ],
            None => Seq::empty(),
        }) + spec_table_from(rows, columns, title, md, i + 1)
    }
}

/// The table elements of one entry.
pub open spec fn spec_table_content(
    rows: Seq<Option<SpecJson>>,
    columns: Seq<Option<SpecJson>>,
    title: Seq<Option<SpecJson>>,
    md: Option<SpecJson>,
) -> Seq<SpecContentData> {
    spec_table_from(rows, columns, title, md, 0)
}

/// Whether any position resolved.
pub open spec fn any_resolved(vals: Seq<Option<SpecJson>>) -> bool {
    exists|i: int| 0 <= i < vals.len() && (#[trigger] vals[i]) is Some
}

/// The content elements of one entry: free content when any data
/// position resolved, a table when any rows position resolved, nothing
/// otherwise.
pub open spec fn spec_create_content(
    data: Seq<Option<SpecJson>>,
    title: Seq<Option<SpecJson>>,
    columns: Seq<Option<SpecJson>>,
    rows: Seq<Option<SpecJson>>,
    md: Option<SpecJson>,
) -> Seq<SpecContentData> {
    if any_resolved(data) {
        spec_data_content(data, title, md)
    } else if any_resolved(rows) {
        spec_table_content(rows, columns, title, md)
    } else {
        Seq::empty()
    }
}

/// The content elements of one mapping entry: nothing when no token
/// falls under the entry's field subtrees; otherwise the entry's
/// fields, resolved under the shared enumeration bound of those
/// matches, assembled into elements.
pub open spec fn spec_content_entry(ts: Seq<SpecToken>, entry: SpecJson) -> Result<
    Seq<SpecContentData>,
    SpecError,
> {
    match spec_all_matches(ts, entry) {
        Err(e) => Err(e),
        Ok(matches) => if matches.len() == 0 {
            Ok(Seq::empty())
        } else {
            match spec_max_indexes(matches) {
                Err(e) => Err(e),
                Ok(bound) => match spec_get_array(matches, entry, bound, "data"@) {
                    Err(e) => Err(e),
                    Ok(data) => match spec_get_array(matches, entry, bound, "title"@) {
                        Err(e) => Err(e),
                        Ok(title) => match spec_get_array(matches, entry, bound, "columns"@) {
                            Err(e) => Err(e),
                            Ok(columns) => match spec_get_array(matches, entry, bound, "rows"@) {
                                Err(e) => Err(e),
                                Ok(rows) => match spec_get_array_metadata(matches, entry, bound) {
                                    Err(e) => Err(e),
                                    Ok(md) => Ok(
                                        spec_create_content(data, title, columns, rows, md),
                                    ),
                                },
                            },
                        },
                    },
                },
            }
        },
    }
}

/// The content elements of a list of entries, concatenated in entry
/// order; the first unusable entry decides the error.
pub open spec fn spec_content_entries(ts: Seq<SpecToken>, entries: Seq<SpecJson>) -> Result<
    Seq<SpecContentData>,
    SpecError,
>
    decreases entries.len(),
{
    if entries.len() == 0 {
        Ok(Seq::empty())
    } else {
        match spec_content_entry(ts, entries[0]) {
            Err(e) => Err(e),
            Ok(cs) => match spec_content_entries(ts, entries.drop_first()) {
                Err(e) => Err(e),
                Ok(rest) => Ok(cs + rest),
            },
        }
    }
}

/// What resolving the record's content returns: nothing when the
/// mapping has no `content` key, a configuration error when it is not
/// a list, the entries' elements otherwise.
pub open spec fn spec_get_content(ts: Seq<SpecToken>, mapping: SpecJson) -> Result<
    Option<Seq<SpecContentData>>,
    SpecError,
> {
    match obj_get(mapping, "content"@) {
        None => Ok(None),
        Some(c) => match c {
            SpecJson::Arr(entries) => match spec_content_entries(ts, entries) {
                Err(e) => Err(e),
                Ok(cs) => Ok(Some(cs)),
            },
            _ => Err(SpecError::Configuration("'content' mapping must be an array"@)),
        },
    }
}

/// What transforming one record returns: `id` and `name` as optional
/// scalars (a mapping without them omits them), the metadata object and
/// the content list; only a defect of the mapping or of the data is an
/// error, a pattern matching nothing is not.
pub open spec fn spec_transform(mapping: SpecJson, ts: Seq<SpecToken>) -> Result<
    crate::model::SpecDocumentModel,
    SpecError,
> {
    let id_r = if obj_get(mapping, "id"@) is Some {
        spec_get_single(ts, mapping, "id"@)
    } else {
        Ok(None)
    };
    match id_r {
        Err(e) => Err(e),
        Ok(id) => {
            let name_r = if obj_get(mapping, "name"@) is Some {
                spec_get_single(ts, mapping, "name"@)
            } else {
                Ok(None)
            };
            match name_r {
                Err(e) => Err(e),
                Ok(name) => match spec_get_metadata(ts, mapping) {
                    Err(e) => Err(e),
                    Ok(metadata) => match spec_get_content(ts, mapping) {
                        Err(e) => Err(e),
                        Ok(content) => Ok(
                            crate::model::SpecDocumentModel { id, name, metadata, content },
                        ),
                    },
                },
            }
        },
    }
}

/// The model of one record's transform result.
pub open spec fn doc_result_view(r: Result<crate::model::DocumentModel, TransformError>) -> Result<
    crate::model::SpecDocumentModel,
    SpecError,
> {
    match r {
        Ok(d) => Ok(d@),
        Err(e) => Err(e@),
    }
}

/// What transforming the records from `i` on returns: each record
/// transformed independently, the outputs in input order; the first
/// failing record decides the error.
pub open spec fn spec_batch_from(mapping: SpecJson, docs: Seq<Seq<SpecToken>>, i: int) -> Result<
    Seq<crate::model::SpecDocumentModel>,
    SpecError,
>
    decreases docs.len() - i,
{
    if i < 0 || i >= docs.len() {
        Ok(Seq::empty())
    } else {
        match spec_transform(mapping, docs[i]) {
            Err(e) => Err(e),
            Ok(d) => match spec_batch_from(mapping, docs, i + 1) {
                Err(e) => Err(e),
                Ok(ds) => Ok(seq![d] + ds),
            },
        }
    }
}

/// What transforming a batch returns.
pub open spec fn spec_transform_batch(mapping: SpecJson, docs: Seq<Seq<SpecToken>>) -> Result<
    Seq<crate::model::SpecDocumentModel>,
    SpecError,
> {
    spec_batch_from(mapping, docs, 0)
}

/// When every record of a batch transforms, the batch yields exactly
/// one output per record, in input order, each the record's own
/// transform: no parallel execution strategy can reorder or mix them.
pub proof fn lemma_batch_order(mapping: SpecJson, docs: Seq<Seq<SpecToken>>, i: int)
    requires
        0 <= i <= docs.len(),
        forall|k: int| 0 <= k < docs.len() ==> (#[trigger] spec_transform(mapping, docs[k])) is Ok,
    ensures
        spec_batch_from(mapping, docs, i) is Ok,
        spec_batch_from(mapping, docs, i)->Ok_0.len() == docs.len() - i,
        forall|k: int|
            i <= k < docs.len() ==> #[trigger] spec_batch_from(mapping, docs, i)->Ok_0[k - i]
                == spec_transform(mapping, docs[k])->Ok_0,
    decreases docs.len() - i,
{
    if i < docs.len() {
        lemma_batch_order(mapping, docs, i + 1);
        assert forall|k: int|
            i <= k < docs.len() implies #[trigger] spec_batch_from(mapping, docs, i)->Ok_0[k - i]
            == spec_transform(mapping, docs[k])->Ok_0 by {
            if k > i {
                assert(spec_batch_from(mapping, docs, i + 1)->Ok_0[k - (i + 1)] == spec_transform(
                    mapping,
                    docs[k],
                )->Ok_0);
            }
        }
    }
}

/// In a token run that equals `p` between `lo` and `hi` and nowhere
/// else, the tokens with path `p` are exactly that run.
proof fn lemma_tokens_with_path_window(ts: Seq<SpecToken>, p: Seq<char>, lo: int, hi: int)
    requires
        0 <= lo <= hi <= ts.len(),
        forall|t: int| lo <= t < hi ==> (#[trigger] ts[t]).path == p,
        forall|t: int| 0 <= t < lo ==> (#[trigger] ts[t]).path != p,
        forall|t: int| hi <= t < ts.len() ==> (#[trigger] ts[t]).path != p,
    ensures
        tokens_with_path(ts, p) == ts.subrange(lo, hi),
    decreases ts.len(),
{
    if ts.len() == 0 {
        assert(tokens_with_path(ts, p) =~= ts.subrange(lo, hi));
    } else {
        let rest = ts.drop_first();
        assert(forall|t: int| 0 <= t < rest.len() ==> rest[t] == ts[t + 1]);
        if lo > 0 {
            assert(ts[0].path != p);
            lemma_tokens_with_path_window(rest, p, lo - 1, hi - 1);
            assert(tokens_with_path(ts, p) =~= ts.subrange(lo, hi));
        } else if hi == 0 {
            assert(ts[0].path != p);
            lemma_tokens_with_path_window(rest, p, 0, 0);
            assert(tokens_with_path(ts, p) =~= ts.subrange(lo, hi));
        } else {
            assert(ts[0].path == p);
            lemma_tokens_with_path_window(rest, p, 0, hi - 1);
            assert(tokens_with_path(ts, p) =~= ts.subrange(lo, hi));
        }
    }
}

/// Reshapes token indexes according to a declarative mapping.
pub struct Transformer;

impl Transformer {
    /// Searches the index for the paths the pattern stands for,
    /// collecting all matching values or only the first.
    #[verifier::loop_isolation(false)]
    pub fn token_search(tokens: &Vec<Token>, mapping: &str, first: bool) -> (r: Result<
        Option<Vec<JsonValue>>,
        TransformError,
    >)
        ensures
            match r {
                Ok(opt) => spec_token_search(tokens.deep_view(), mapping@, first) == Ok::<
                    Option<Seq<SpecJson>>,
                    SpecError,
                >(
                    match opt {
                        Some(v) => Some(v.deep_view()),
                        None => None,
                    },
                ),
                Err(e) => spec_token_search(tokens.deep_view(), mapping@, first) == Err::<
                    Option<Seq<SpecJson>>,
                    SpecError,
                >(e@),
            },
    {
        let ghost dv = tokens.deep_view();
        let wildcard = match crate::paths::find_marker(mapping) {
            Some(_) => true,
            None => false,
        };
        proof {
            assert(wildcard == has_wildcard(mapping@));
        }
        if wildcard && !pattern_well_formed(mapping) {
            let mut msg = String::from_str("invalid path expression: ");
            msg.append(mapping);
            return Err(TransformError::Configuration(msg));
        }
        let mut results: Vec<JsonValue> = Vec::new();
        let mut i: usize = 0;
        proof {
            assert(dv.skip(0) =~= dv);
            assert(results.deep_view() + matching_values(dv, mapping@) =~= matching_values(
                dv,
                mapping@,
            ));
        }
        while i < tokens.len()
            invariant
                i <= tokens.len(),
                matching_values(dv, mapping@) == results.deep_view() + matching_values(
                    dv.skip(i as int),
                    mapping@,
                ),
                first ==> results@.len() == 0,
            decreases tokens.len() - i,
        {
            proof {
                assert(dv.skip(i as int)[0] == dv[i as int]);
                assert(dv.skip(i as int).drop_first() =~= dv.skip(i as int + 1));
            }
            let hit = if wildcard {
                pattern_matches(mapping, tokens[i].path.as_str())
            } else {
                str_cmp(tokens[i].path.as_str(), mapping) == 0
            };
            proof {
                assert(hit == path_matches(mapping@, dv[i as int].path));
            }
            if hit {
                let value = tokens[i].value.deep_clone();
                if first {
                    let mut only: Vec<JsonValue> = Vec::new();
                    only.push(value);
                    proof {
                        let ms = matching_values(dv, mapping@);
                        assert(ms =~= seq![dv[i as int].value] + matching_values(
                            dv.skip(i as int + 1),
                            mapping@,
                        ));
                        assert(ms[0] == dv[i as int].value);
                        assert(only.deep_view() =~= seq![ms[0]]);
                    }
                    return Ok(Some(only));
                }
                let ghost prev = results.deep_view();
                results.push(value);
                proof {
                    assert(results.deep_view() =~= prev + seq![dv[i as int].value]);
                    assert(results.deep_view() + matching_values(dv.skip(i as int + 1), mapping@)
                        =~= prev + matching_values(dv.skip(i as int), mapping@));
                }
            }
            i = i + 1;
        }
        proof {
            assert(dv.skip(dv.len() as int) =~= Seq::<SpecToken>::empty());
            assert(results.deep_view() =~= matching_values(dv, mapping@));
        }
        if results.is_empty() {
            return Ok(None);
        }
        Ok(Some(results))
    }

    /// Every token under the entry's field subtrees, gathered field by
    /// field.
    #[verifier::loop_isolation(false)]
    #[verifier::rlimit(50)]
    pub fn get_all_tokens(tokens: &Vec<Token>, mapping: &JsonValue) -> (r: Result<
        Vec<Token>,
        TransformError,
    >)
        requires
            sorted_tokens(tokens.deep_view()),
        ensures
            match r {
                Ok(v) => spec_all_matches(tokens.deep_view(), mapping@) == Ok::<
                    Seq<SpecToken>,
                    SpecError,
                >(v.deep_view()),
                Err(e) => spec_all_matches(tokens.deep_view(), mapping@) == Err::<
                    Seq<SpecToken>,
                    SpecError,
                >(e@),
            },
        decreases mapping,
    {
        let ghost dv = tokens.deep_view();
        let fields = match mapping {
            JsonValue::Obj(fields) => fields,
            _ => {
                return Err(
                    TransformError::Configuration(
                        String::from_str("content entry must be an object"),
                    ),
                );
            },
        };
        let ghost fv = crate::json::json_fields_view(fields@);
        let mut keys: Vec<Token> = Vec::new();
        let mut i: usize = 0;
        proof {
            assert(fv.skip(0) =~= fv);
        }
        while i < fields.len()
            invariant
                i <= fields.len(),
                spec_all_matches_fields(dv, fv) == match spec_all_matches_fields(
                    dv,
                    fv.skip(i as int),
                ) {
                    Err(e) => Err::<Seq<SpecToken>, SpecError>(e),
                    Ok(rest) => Ok::<Seq<SpecToken>, SpecError>(keys.deep_view() + rest),
                },
            decreases fields.len() - i,
        {
            proof {
                assert(fv.skip(i as int)[0] == fv[i as int]);
                assert(fv.skip(i as int).drop_first() =~= fv.skip(i as int + 1));
            }
            let value = &fields[i].1;
            let mut head: Vec<Token> = match value {
                JsonValue::Obj(_) => {
                    match Transformer::get_all_tokens(tokens, value) {
                        Ok(v) => v,
                        Err(e) => {
                            return Err(e);
                        },
                    }
                },
                JsonValue::Str(s) => {
                    let wildcard = match crate::paths::find_marker(s.as_str()) {
                        Some(_) => true,
                        None => false,
                    };
                    if wildcard {
                        if !pattern_well_formed(s.as_str()) {
                            let mut msg = String::from_str("invalid path expression: ");
                            msg.append(s.as_str());
                            return Err(TransformError::Configuration(msg));
                        }
                        let mut hits: Vec<Token> = Vec::new();
                        let mut t: usize = 0;
                        proof {
                            assert(dv.skip(0) =~= dv);
                            assert(hits.deep_view() + matching_tokens(dv, s@) =~= matching_tokens(
                                dv,
                                s@,
                            ));
                        }
                        while t < tokens.len()
                            invariant
                                t <= tokens.len(),
                                matching_tokens(dv, s@) == hits.deep_view() + matching_tokens(
                                    dv.skip(t as int),
                                    s@,
                                ),
                            decreases tokens.len() - t,
                        {
                            proof {
                                assert(dv.skip(t as int)[0] == dv[t as int]);
                                assert(dv.skip(t as int).drop_first() =~= dv.skip(t as int + 1));
                            }
                            if pattern_matches(s.as_str(), tokens[t].path.as_str()) {
                                let ghost prev = hits.deep_view();
                                hits.push(tokens[t].duplicate());
                                proof {
                                    assert(hits.deep_view() =~= prev + seq![dv[t as int]]);
                                    assert(hits.deep_view() + matching_tokens(
                                        dv.skip(t as int + 1),
                                        s@,
                                    ) =~= prev + matching_tokens(dv.skip(t as int), s@));
                                }
                            }
                            t = t + 1;
                        }
                        proof {
                            assert(dv.skip(dv.len() as int) =~= Seq::<SpecToken>::empty());
                            assert(hits.deep_view() =~= matching_tokens(dv, s@));
                        }
                        hits
                    } else {
                        let hits = Transformer::reduce_tokens(tokens, s.as_str());
                        proof {
                            lemma_matching_tokens_exact(dv, s@);
                        }
                        hits
                    }
                },
                _ => {
                    return Err(
                        TransformError::Configuration(
                            String::from_str("path expression must be a string"),
                        ),
                    );
                },
            };
            let ghost prev = keys.deep_view();
            let ghost head_dv = head.deep_view();
            keys.append(&mut head);
            proof {
                assert(keys.deep_view() =~= prev + head_dv);
                assert forall|rest: Seq<SpecToken>| true implies keys.deep_view() + rest =~= prev
                    + (head_dv + rest) by {}
            }
            i = i + 1;
        }
        proof {
            assert(fv.skip(fields@.len() as int) =~= Seq::<(Seq<char>, SpecJson)>::empty());
        }
        Ok(keys)
    }

    /// The first value whose path the pattern accepts, scanning in
    /// index order.
    #[verifier::loop_isolation(false)]
    fn first_match(tokens: &Vec<Token>, pattern: &str) -> (r: Option<JsonValue>)
        requires
            well_formed_pattern(pattern@),
        ensures
            r.deep_view() == spec_first_match(tokens.deep_view(), pattern@),
    {
        let ghost dv = tokens.deep_view();
        let mut i: usize = 0;
        proof {
            assert(dv.skip(0) =~= dv);
        }
        while i < tokens.len()
            invariant
                i <= tokens.len(),
                matching_values(dv, pattern@) == matching_values(dv.skip(i as int), pattern@),
            decreases tokens.len() - i,
        {
            proof {
                assert(dv.skip(i as int)[0] == dv[i as int]);
                assert(dv.skip(i as int).drop_first() =~= dv.skip(i as int + 1));
            }
            let hit = pattern_matches(pattern, tokens[i].path.as_str());
            proof {
                if !has_wildcard(pattern@) {
                    crate::paths::lemma_no_wildcard_exact(pattern@, dv[i as int].path);
                }
                assert(hit == path_matches(pattern@, dv[i as int].path));
            }
            if hit {
                let value = tokens[i].value.deep_clone();
                proof {
                    assert(matching_values(dv, pattern@)[0] == dv[i as int].value);
                }
                return Some(value);
            }
            i = i + 1;
        }
        proof {
            assert(dv.skip(dv.len() as int) =~= Seq::<SpecToken>::empty());
        }
        None
    }

    /// The contribution of index `i` at dimension `d`: the first match
    /// of the concrete path when this is the last bound, the deeper
    /// enumeration otherwise.
    fn enum_item(tokens: &Vec<Token>, pattern: &str, bounds: &Vec<usize>, d: usize, i: usize) -> (r:
        Vec<Option<JsonValue>>)
        requires
            well_formed_pattern(pattern@),
            d < bounds@.len(),
        ensures
            r.deep_view() == ({
                let sub = crate::paths::subst_marker(pattern@, crate::paths::dec_rep(i as nat));
                if bounds@.len() - d == 1 {
                    seq![spec_first_match(tokens.deep_view(), sub)]
                } else {
                    spec_enumerate(
                        tokens.deep_view(),
                        sub,
                        crate::paths::nats_of(bounds@).skip(d as int + 1),
                    )
                }
            }),
        decreases bounds@.len() - d, 0nat,
    {
        let ghost dv = tokens.deep_view();
        let sub = crate::paths::substitute_first(pattern, i);
        proof {
            crate::paths::lemma_dec_rep_digits(i as nat);
            if has_wildcard(pattern@) {
                crate::paths::lemma_subst_wf(pattern@, crate::paths::dec_rep(i as nat));
            } else {
                crate::paths::lemma_subst_no_marker(pattern@, crate::paths::dec_rep(i as nat));
            }
        }
        if d == bounds.len() - 1 {
            let m = Transformer::first_match(tokens, sub.as_str());
            let mut r: Vec<Option<JsonValue>> = Vec::new();
            r.push(m);
            proof {
                assert(r.deep_view() =~= seq![spec_first_match(dv, sub@)]);
            }
            r
        } else {
            Transformer::enumerate_rec(tokens, sub.as_str(), bounds, d + 1)
        }
    }

    /// The enumeration of the pattern under the bounds from dimension
    /// `d` on.
    #[verifier::loop_isolation(false)]
    fn enumerate_rec(tokens: &Vec<Token>, pattern: &str, bounds: &Vec<usize>, d: usize) -> (r: Vec<
        Option<JsonValue>,
    >)
        requires
            well_formed_pattern(pattern@),
            d <= bounds@.len(),
        ensures
            r.deep_view() == spec_enumerate(
                tokens.deep_view(),
                pattern@,
                crate::paths::nats_of(bounds@).skip(d as int),
            ),
        decreases bounds@.len() - d, 1nat,
    {
        let ghost dv = tokens.deep_view();
        let ghost bsk = crate::paths::nats_of(bounds@).skip(d as int);
        let mut results: Vec<Option<JsonValue>> = Vec::new();
        if d == bounds.len() {
            proof {
                assert(results.deep_view() =~= spec_enumerate(dv, pattern@, bsk));
            }
            return results;
        }
        let n = bounds[d];
        proof {
            assert(bsk[0] == n as nat);
            assert(bsk.drop_first() =~= crate::paths::nats_of(bounds@).skip(d as int + 1));
        }
        let mut i: usize = 0;
        while i < n
            invariant
                i <= n,
                results.deep_view() == spec_enum_upto(dv, pattern@, bsk, i as nat),
            decreases n - i,
        {
            let mut item = Transformer::enum_item(tokens, pattern, bounds, d, i);
            let ghost item_dv = item.deep_view();
            results.append(&mut item);
            proof {
                assert(results.deep_view() =~= spec_enum_upto(dv, pattern@, bsk, i as nat)
                    + item_dv);
                assert(results.deep_view() == spec_enum_upto(dv, pattern@, bsk, (i + 1) as nat));
            }
            i = i + 1;
        }
        let mut item = Transformer::enum_item(tokens, pattern, bounds, d, n);
        let ghost item_dv = item.deep_view();
        results.append(&mut item);
        proof {
            assert(results.deep_view() =~= spec_enum_upto(dv, pattern@, bsk, n as nat) + item_dv);
            assert(results.deep_view() == spec_enum_upto(dv, pattern@, bsk, (n + 1) as nat));
            assert(spec_enumerate(dv, pattern@, bsk) == spec_enum_upto(
                dv,
                pattern@,
                bsk,
                (n + 1) as nat,
            ));
        }
        results
    }

    /// Enumerates a wildcard pattern over the indices that a bound
    /// string allows, one resolved value or null placeholder per index.
    pub fn array_search(tokens: &Vec<Token>, mapping: &str, pattern: &str) -> (r: Result<
        Vec<Option<JsonValue>>,
        TransformError,
    >)
        ensures
            match r {
                Ok(v) => spec_array_search(tokens.deep_view(), mapping@, pattern@) == Ok::<
                    Seq<Option<SpecJson>>,
                    SpecError,
                >(v.deep_view()),
                Err(e) => spec_array_search(tokens.deep_view(), mapping@, pattern@) == Err::<
                    Seq<Option<SpecJson>>,
                    SpecError,
                >(e@),
            },
    {
        let wildcard = match crate::paths::find_marker(mapping) {
            Some(_) => true,
            None => false,
        };
        if wildcard && !pattern_well_formed(mapping) {
            let mut msg = String::from_str("invalid path expression: ");
            msg.append(mapping);
            return Err(TransformError::Configuration(msg));
        }
        let bounds = match crate::paths::parse_bound_values(pattern) {
            Some(b) => b,
            None => {
                let mut msg = String::from_str("invalid enumeration bound: ");
                msg.append(pattern);
                return Err(TransformError::Configuration(msg));
            },
        };
        proof {
            assert(crate::paths::bounds_ok(pattern@));
            assert(crate::paths::nats_of(bounds@).skip(0) =~= crate::paths::nats_of(bounds@));
        }
        let r = Transformer::enumerate_rec(tokens, mapping, &bounds, 0);
        Ok(r)
    }

    /// Resolves one scalar field: the first value matching the pattern
    /// that the mapping gives for `key`. A mapping without `key` is a
    /// configuration error; a pattern matching nothing is not.
    pub fn get_single_value(tokens: &Vec<Token>, mapping: &JsonValue, key: &str) -> (r: Result<
        Option<JsonValue>,
        TransformError,
    >)
        ensures
            match r {
                Ok(opt) => spec_get_single(tokens.deep_view(), mapping@, key@) == Ok::<
                    Option<SpecJson>,
                    SpecError,
                >(opt.deep_view()),
                Err(e) => spec_get_single(tokens.deep_view(), mapping@, key@) == Err::<
                    Option<SpecJson>,
                    SpecError,
                >(e@),
            },
    {
        let item = match mapping.get(key) {
            Some(value) => value,
            None => {
                let mut msg = key.to_owned();
                msg.append(" mapping is required");
                return Err(TransformError::Configuration(msg));
            },
        };
        let pattern = match item.as_str() {
            Some(s) => s,
            None => {
                return Err(
                    TransformError::Configuration(
                        String::from_str("path expression must be a string"),
                    ),
                );
            },
        };
        match Transformer::token_search(tokens, pattern.as_str(), true) {
            Err(e) => Err(e),
            Ok(None) => Ok(None),
            Ok(Some(vals)) => {
                proof {
                    assert(vals.deep_view().len() == 1);
                    assert(vals@.len() == 1);
                }
                let v = vals[0].deep_clone();
                proof {
                    assert(vals.deep_view()[0] == vals@[0]@);
                }
                Ok(Some(v))
            },
        }
    }

    /// Resolves one possibly repeated field: the enumeration under
    /// `pattern` when the mapping's path expression carries the marker,
    /// the single scalar result otherwise, and nothing when the mapping
    /// does not define `key`.
    pub fn get_array_value(tokens: &Vec<Token>, mapping: &JsonValue, pattern: &str, key: &str) -> (r:
        Result<Vec<Option<JsonValue>>, TransformError>)
        ensures
            match r {
                Ok(v) => spec_get_array(tokens.deep_view(), mapping@, pattern@, key@) == Ok::<
                    Seq<Option<SpecJson>>,
                    SpecError,
                >(v.deep_view()),
                Err(e) => spec_get_array(tokens.deep_view(), mapping@, pattern@, key@) == Err::<
                    Seq<Option<SpecJson>>,
                    SpecError,
                >(e@),
            },
    {
        let item = match mapping.get(key) {
            Some(value) => value,
            None => {
                let empty: Vec<Option<JsonValue>> = Vec::new();
                proof {
                    assert(empty.deep_view() =~= Seq::<Option<SpecJson>>::empty());
                }
                return Ok(empty);
            },
        };
        let expr = match item.as_str() {
            Some(s) => s,
            None => {
                return Err(
                    TransformError::Configuration(
                        String::from_str("path expression must be a string"),
                    ),
                );
            },
        };
        let wildcard = match crate::paths::find_marker(expr.as_str()) {
            Some(_) => true,
            None => false,
        };
        if wildcard {
            return Transformer::array_search(tokens, expr.as_str(), pattern);
        }
        match Transformer::get_single_value(tokens, mapping, key) {
            Err(e) => Err(e),
            Ok(opt) => {
                let mut r: Vec<Option<JsonValue>> = Vec::new();
                r.push(opt);
                proof {
                    assert(r.deep_view() =~= seq![r@[0].deep_view()]);
                }
                Ok(r)
            },
        }
    }

    /// Resolves the document-level metadata object: each key of the
    /// mapping's `metadata` object that matched carries its first
    /// match.
    #[verifier::loop_isolation(false)]
    pub fn get_metadata(tokens: &Vec<Token>, mapping: &JsonValue) -> (r: Result<
        Option<JsonValue>,
        TransformError,
    >)
        ensures
            match r {
                Ok(opt) => spec_get_metadata(tokens.deep_view(), mapping@) == Ok::<
                    Option<SpecJson>,
                    SpecError,
                >(opt.deep_view()),
                Err(e) => spec_get_metadata(tokens.deep_view(), mapping@) == Err::<
                    Option<SpecJson>,
                    SpecError,
                >(e@),
            },
    {
        let ghost dv = tokens.deep_view();
        let item = match mapping.get("metadata") {
            Some(value) => value,
            None => {
                return Ok(None);
            },
        };
        let fields = match item {
            JsonValue::Obj(fields) => fields,
            _ => {
                return Err(
                    TransformError::Configuration(
                        String::from_str("metadata mapping must be an object"),
                    ),
                );
            },
        };
        let ghost fv = crate::json::json_fields_view(fields@);
        let mut out: Vec<(String, JsonValue)> = Vec::new();
        let mut i: usize = 0;
        proof {
            assert(fv.skip(0) =~= fv);
        }
        while i < fields.len()
            invariant
                i <= fields.len(),
                spec_metadata_fields(dv, item@, fv) == match spec_metadata_fields(
                    dv,
                    item@,
                    fv.skip(i as int),
                ) {
                    Err(e) => Err::<Seq<(Seq<char>, SpecJson)>, SpecError>(e),
                    Ok(fs) => Ok::<Seq<(Seq<char>, SpecJson)>, SpecError>(
                        crate::json::json_fields_view(out@) + fs,
                    ),
                },
            decreases fields.len() - i,
        {
            proof {
                assert(fv.skip(i as int)[0] == fv[i as int]);
                assert(fv.skip(i as int).drop_first() =~= fv.skip(i as int + 1));
            }
            match Transformer::get_single_value(tokens, item, fields[i].0.as_str()) {
                Err(e) => {
                    return Err(e);
                },
                Ok(None) => {},
                Ok(Some(v)) => {
                    let ghost prev = crate::json::json_fields_view(out@);
                    out.push((fields[i].0.clone(), v));
                    proof {
                        assert(crate::json::json_fields_view(out@) =~= prev + seq![
                            (fv[i as int].0, out@[out@.len() - 1].1@),
                        ]);
                        assert forall|fs: Seq<(Seq<char>, SpecJson)>| true implies crate
                            ::json::json_fields_view(out@) + fs =~= prev + (seq![
                            (fv[i as int].0, out@[out@.len() - 1].1@),
                        ] + fs) by {}
                    }
                },
            }
            i = i + 1;
        }
        proof {
            assert(fv.skip(fields@.len() as int) =~= Seq::<(Seq<char>, SpecJson)>::empty());
            assert(crate::json::json_fields_view(out@) + Seq::<(Seq<char>, SpecJson)>::empty()
                =~= crate::json::json_fields_view(out@));
        }
        Ok(Some(JsonValue::Obj(out)))
    }

    /// Resolves the per-entry metadata object: every key of the
    /// mapping's `metadata` object carries the array of its positional
    /// results, aligned with the entry's other fields.
    #[verifier::loop_isolation(false)]
    pub fn get_array_metadata(tokens: &Vec<Token>, mapping: &JsonValue, pattern: &str) -> (r:
        Result<Option<JsonValue>, TransformError>)
        ensures
            match r {
                Ok(opt) => spec_get_array_metadata(tokens.deep_view(), mapping@, pattern@) == Ok::<
                    Option<SpecJson>,
                    SpecError,
                >(opt.deep_view()),
                Err(e) => spec_get_array_metadata(tokens.deep_view(), mapping@, pattern@) == Err::<
                    Option<SpecJson>,
                    SpecError,
                >(e@),
            },
    {
        let ghost dv = tokens.deep_view();
        let item = match mapping.get("metadata") {
            Some(value) => value,
            None => {
                return Ok(None);
            },
        };
        let fields = match item {
            JsonValue::Obj(fields) => fields,
            _ => {
                return Err(
                    TransformError::Configuration(
                        String::from_str("metadata mapping must be an object"),
                    ),
                );
            },
        };
        let ghost fv = crate::json::json_fields_view(fields@);
        let mut out: Vec<(String, JsonValue)> = Vec::new();
        let mut i: usize = 0;
        proof {
            assert(fv.skip(0) =~= fv);
        }
        while i < fields.len()
            invariant
                i <= fields.len(),
                spec_array_metadata_fields(dv, item@, pattern@, fv) == match spec_array_metadata_fields(
                    dv,
                    item@,
                    pattern@,
                    fv.skip(i as int),
                ) {
                    Err(e) => Err::<Seq<(Seq<char>, SpecJson)>, SpecError>(e),
                    Ok(fs) => Ok::<Seq<(Seq<char>, SpecJson)>, SpecError>(
                        crate::json::json_fields_view(out@) + fs,
                    ),
                },
            decreases fields.len() - i,
        {
            proof {
                assert(fv.skip(i as int)[0] == fv[i as int]);
                assert(fv.skip(i as int).drop_first() =~= fv.skip(i as int + 1));
            }
            let vals = match Transformer::get_array_value(
                tokens,
                item,
                pattern,
                fields[i].0.as_str(),
            ) {
                Err(e) => {
                    return Err(e);
                },
                Ok(vals) => vals,
            };
            let mut converted: Vec<JsonValue> = Vec::new();
            let mut k: usize = 0;
            proof {
                assert(nulls_filled(vals.deep_view()).take(0) =~= Seq::<SpecJson>::empty());
                assert(crate::json::json_seq_view(converted@) =~= Seq::<SpecJson>::empty());
            }
            while k < vals.len()
                invariant
                    k <= vals.len(),
                    crate::json::json_seq_view(converted@) == nulls_filled(vals.deep_view()).take(
                        k as int,
                    ),
                decreases vals.len() - k,
            {
                let ghost prev = crate::json::json_seq_view(converted@);
                match &vals[k] {
                    None => {
                        converted.push(JsonValue::Null);
                    },
                    Some(v) => {
                        let c = v.deep_clone();
                        converted.push(c);
                    },
                }
                proof {
                    assert(crate::json::json_seq_view(converted@) =~= nulls_filled(
                        vals.deep_view(),
                    ).take(k as int + 1));
                }
                k = k + 1;
            }
            proof {
                assert(nulls_filled(vals.deep_view()).take(vals@.len() as int) =~= nulls_filled(
                    vals.deep_view(),
                ));
            }
            let ghost prev = crate::json::json_fields_view(out@);
            out.push((fields[i].0.clone(), JsonValue::Arr(converted)));
            proof {
                assert(crate::json::json_fields_view(out@) =~= prev + seq![
                    (fv[i as int].0, out@[out@.len() - 1].1@),
                ]);
                assert forall|fs: Seq<(Seq<char>, SpecJson)>| true implies crate
                    ::json::json_fields_view(out@) + fs =~= prev + (seq![
                    (fv[i as int].0, out@[out@.len() - 1].1@),
                ] + fs) by {}
            }
            i = i + 1;
        }
        proof {
            assert(fv.skip(fields@.len() as int) =~= Seq::<(Seq<char>, SpecJson)>::empty());
            assert(crate::json::json_fields_view(out@) + Seq::<(Seq<char>, SpecJson)>::empty()
                =~= crate::json::json_fields_view(out@));
        }
        Ok(Some(JsonValue::Obj(out)))
    }

    /// The shared enumeration bound of a set of matches: the
    /// positionwise maxima of the digit runs embedded in their paths,
    /// joined with `|`.
    #[verifier::loop_isolation(false)]
    pub fn get_max_indexes(matches: &Vec<Token>) -> (r: Result<String, TransformError>)
        ensures
            match r {
                Ok(s) => spec_max_indexes(matches.deep_view()) == Ok::<Seq<char>, SpecError>(s@),
                Err(e) => spec_max_indexes(matches.deep_view()) == Err::<Seq<char>, SpecError>(e@),
            },
    {
        let ghost dv = matches.deep_view();
        let ghost paths = dv.map_values(|t: SpecToken| t.path);
        let mut cur: Vec<usize> = Vec::new();
        let mut i: usize = 0;
        proof {
            assert(crate::paths::max_bounds(paths.take(0)) =~= Seq::<nat>::empty());
            assert(crate::paths::nats_of(cur@) =~= Seq::<nat>::empty());
        }
        while i < matches.len()
            invariant
                i <= matches.len(),
                crate::paths::nats_of(cur@) == crate::paths::max_bounds(paths.take(i as int)),
            decreases matches.len() - i,
        {
            let vals = match crate::paths::extract_run_values(matches[i].path.as_str()) {
                Some(v) => v,
                None => {
                    proof {
                        let t = choose|t: int|
                            0 <= t < crate::paths::run_values(paths[i as int]).len()
                                && #[trigger] crate::paths::run_values(paths[i as int])[t]
                                > usize::MAX;
                        crate::paths::lemma_max_bounds_ge(paths, i as int, t);
                    }
                    return Err(
                        TransformError::Data(
                            String::from_str("array index out of range in token paths"),
                        ),
                    );
                },
            };
            crate::paths::merge_bound_values(&mut cur, &vals);
            proof {
                assert(paths.take(i as int + 1).drop_last() =~= paths.take(i as int));
                assert(paths.take(i as int + 1).last() == paths[i as int]);
            }
            i = i + 1;
        }
        proof {
            assert(paths.take(dv.len() as int) =~= paths);
            assert forall|t: int|
                0 <= t < crate::paths::max_bounds(paths).len() implies #[trigger] crate
                ::paths::max_bounds(paths)[t] <= usize::MAX by {
                assert(crate::paths::max_bounds(paths)[t] == cur@[t] as nat);
            }
        }
        let joined = crate::paths::join_bound_values(&cur);
        Ok(joined)
    }

    /// The value aligned with position `i`, null when the field list is
    /// shorter or the position unmatched.
    fn aligned_value(vals: &Vec<Option<JsonValue>>, i: usize) -> (r: JsonValue)
        ensures
            r@ == aligned_at(vals.deep_view(), i as int),
    {
        if i < vals.len() {
            match &vals[i] {
                Some(v) => v.deep_clone(),
                None => JsonValue::Null,
            }
        } else {
            JsonValue::Null
        }
    }

    /// The metadata fields aligned with position `i`.
    #[verifier::loop_isolation(false)]
    fn aligned_extras(metadata: &Option<JsonValue>, i: usize) -> (r: Vec<(String, JsonValue)>)
        ensures
            crate::json::json_fields_view(r@) == md_extras(metadata.deep_view(), i as int),
    {
        let mut out: Vec<(String, JsonValue)> = Vec::new();
        let m = match metadata {
            Some(m) => m,
            None => {
                proof {
                    assert(crate::json::json_fields_view(out@) =~= Seq::<
                        (Seq<char>, SpecJson),
                    >::empty());
                }
                return out;
            },
        };
        let fields = match m {
            JsonValue::Obj(fields) => fields,
            _ => {
                proof {
                    assert(crate::json::json_fields_view(out@) =~= Seq::<
                        (Seq<char>, SpecJson),
                    >::empty());
                }
                return out;
            },
        };
        let ghost fv = crate::json::json_fields_view(fields@);
        let mut k: usize = 0;
        proof {
            assert(fv.skip(0) =~= fv);
            assert(crate::json::json_fields_view(out@) =~= Seq::<(Seq<char>, SpecJson)>::empty());
        }
        while k < fields.len()
            invariant
                k <= fields.len(),
                md_extras_fields(fv, i as int) == crate::json::json_fields_view(out@)
                    + md_extras_fields(fv.skip(k as int), i as int),
            decreases fields.len() - k,
        {
            proof {
                assert(fv.skip(k as int)[0] == fv[k as int]);
                assert(fv.skip(k as int).drop_first() =~= fv.skip(k as int + 1));
            }
            match &fields[k].1 {
                JsonValue::Arr(vals) => {
                    let ghost prev = crate::json::json_fields_view(out@);
                    let v = if i < vals.len() {
                        vals[i].deep_clone()
                    } else {
                        JsonValue::Null
                    };
                    proof {
                        assert(fv[k as int].1 == crate::json::json_view(fields@[k as int].1));
                        assert(fv[k as int].1->Arr_0 =~= crate::json::json_seq_view(vals@));
                        if i < vals@.len() {
                            let ghost elem = vals@[i as int];
                            assert(crate::json::json_seq_view(vals@)[i as int] == elem@);
                        }
                    }
                    out.push((fields[k].0.clone(), v));
                    proof {
                        assert(crate::json::json_fields_view(out@) =~= prev + seq![
                            (fv[k as int].0, out@[out@.len() - 1].1@),
                        ]);
                        assert forall|fs: Seq<(Seq<char>, SpecJson)>| true implies crate
                            ::json::json_fields_view(out@) + fs =~= prev + (seq![
                            (fv[k as int].0, out@[out@.len() - 1].1@),
                        ] + fs) by {}
                    }
                },
                _ => {},
            }
            k = k + 1;
        }
        proof {
            assert(fv.skip(fields@.len() as int) =~= Seq::<(Seq<char>, SpecJson)>::empty());
            assert(crate::json::json_fields_view(out@) + Seq::<(Seq<char>, SpecJson)>::empty()
                =~= crate::json::json_fields_view(out@));
        }
        out
    }

    /// Assembles free-content elements: one per matched data position,
    /// the data normalized to an array, title and metadata aligned by
    /// position.
    #[verifier::loop_isolation(false)]
    pub fn create_data_content(
        data: Vec<Option<JsonValue>>,
        title: Vec<Option<JsonValue>>,
        metadata: Option<JsonValue>,
    ) -> (r: Vec<ContentData>)
        ensures
            r.deep_view() == spec_data_content(
                data.deep_view(),
                title.deep_view(),
                metadata.deep_view(),
            ),
    {
        let ghost d = data.deep_view();
        let ghost t = title.deep_view();
        let ghost m = metadata.deep_view();
        let mut out: Vec<ContentData> = Vec::new();
        let mut i: usize = 0;
        proof {
            assert(out.deep_view() + spec_data_from(d, t, m, 0) =~= spec_data_from(d, t, m, 0));
        }
        while i < data.len()
            invariant
                i <= data.len(),
                spec_data_content(d, t, m) == out.deep_view() + spec_data_from(d, t, m, i as int),
            decreases data.len() - i,
        {
            match &data[i] {
                Some(item) => {
                    proof {
                        assert(d[i as int] == data@[i as int].deep_view());
                        assert(d[i as int] == Some(item@));
                    }
                    let value = if item.is_array() {
                        item.deep_clone()
                    } else {
                        let mut one: Vec<JsonValue> = Vec::new();
                        one.push(item.deep_clone());
                        proof {
                            assert(crate::json::json_seq_view(one@) =~= seq![item@]);
                        }
                        let arr = JsonValue::Arr(one);
                        proof {
                            assert(arr@ =~= normalize_arr(item@));
                        }
                        arr
                    };
                    let heading = Transformer::aligned_value(&title, i);
                    let extras = Transformer::aligned_extras(&metadata, i);
                    let ghost prev = out.deep_view();
                    out.push(
                        ContentData::ContentModel(
                            ContentModel { title: heading, data: value, metadata: extras },
                        ),
                    );
                    proof {
                        assert(out.deep_view() =~= prev + seq![out@[out@.len() - 1].deep_view()]);
                        assert(out.deep_view() + spec_data_from(d, t, m, i as int + 1) =~= prev
                            + spec_data_from(d, t, m, i as int));
                    }
                },
                None => {
                    proof {
                        assert(out.deep_view() + spec_data_from(d, t, m, i as int + 1)
                            =~= out.deep_view() + spec_data_from(d, t, m, i as int));
                    }
                },
            }
            i = i + 1;
        }
        proof {
            assert(spec_data_from(d, t, m, data@.len() as int) =~= Seq::<SpecContentData>::empty());
            assert(out.deep_view() + Seq::<SpecContentData>::empty() =~= out.deep_view());
        }
        out
    }

    /// Assembles table elements: one per matched rows position, columns,
    /// title and metadata aligned by position.
    #[verifier::loop_isolation(false)]
    pub fn create_table_content(
        rows: Vec<Option<JsonValue>>,
        columns: Vec<Option<JsonValue>>,
        title: Vec<Option<JsonValue>>,
        metadata: Option<JsonValue>,
    ) -> (r: Vec<ContentData>)
        ensures
            r.deep_view() == spec_table_content(
                rows.deep_view(),
                columns.deep_view(),
                title.deep_view(),
                metadata.deep_view(),
            ),
    {
        let ghost rw = rows.deep_view();
        let ghost c = columns.deep_view();
        let ghost t = title.deep_view();
        let ghost m = metadata.deep_view();
        let mut out: Vec<ContentData> = Vec::new();
        let mut i: usize = 0;
        proof {
            assert(out.deep_view() + spec_table_from(rw, c, t, m, 0) =~= spec_table_from(
                rw,
                c,
                t,
                m,
                0,
            ));
        }
        while i < rows.len()
            invariant
                i <= rows.len(),
                spec_table_content(rw, c, t, m) == out.deep_view() + spec_table_from(
                    rw,
                    c,
                    t,
                    m,
                    i as int,
                ),
            decreases rows.len() - i,
        {
            match &rows[i] {
                Some(item) => {
                    proof {
                        assert(rw[i as int] == rows@[i as int].deep_view());
                        assert(rw[i as int] == Some(item@));
                    }
                    let value = item.deep_clone();
                    let cols = Transformer::aligned_value(&columns, i);
                    let heading = Transformer::aligned_value(&title, i);
                    let extras = Transformer::aligned_extras(&metadata, i);
                    let ghost prev = out.deep_view();
                    out.push(
                        ContentData::TableModel(
                            TableModel { title: heading, rows: value, columns: cols, metadata: extras },
                        ),
                    );
                    proof {
                        assert(out.deep_view() =~= prev + seq![out@[out@.len() - 1].deep_view()]);
                        assert(out.deep_view() + spec_table_from(rw, c, t, m, i as int + 1) =~= prev
                            + spec_table_from(rw, c, t, m, i as int));
                    }
                },
                None => {
                    proof {
                        assert(out.deep_view() + spec_table_from(rw, c, t, m, i as int + 1)
                            =~= out.deep_view() + spec_table_from(rw, c, t, m, i as int));
                    }
                },
            }
            i = i + 1;
        }
        proof {
            assert(spec_table_from(rw, c, t, m, rows@.len() as int) =~= Seq::<
                SpecContentData,
            >::empty());
            assert(out.deep_view() + Seq::<SpecContentData>::empty() =~= out.deep_view());
        }
        out
    }

    /// Whether any position resolved.
    #[verifier::loop_isolation(false)]
    fn any_some(vals: &Vec<Option<JsonValue>>) -> (r: bool)
        ensures
            r == any_resolved(vals.deep_view()),
    {
        let ghost dv = vals.deep_view();
        let mut i: usize = 0;
        while i < vals.len()
            invariant
                i <= vals.len(),
                forall|j: int| 0 <= j < i ==> !((#[trigger] dv[j]) is Some),
            decreases vals.len() - i,
        {
            match &vals[i] {
                Some(_) => {
                    proof {
                        assert(dv[i as int] is Some);
                    }
                    return true;
                },
                None => {},
            }
            i = i + 1;
        }
        false
    }

    /// Assembles one entry's content: free content when any data
    /// position resolved, a table when any rows position resolved,
    /// nothing otherwise.
    pub fn create_content(
        data: Vec<Option<JsonValue>>,
        title: Vec<Option<JsonValue>>,
        columns: Vec<Option<JsonValue>>,
        rows: Vec<Option<JsonValue>>,
        metadata: Option<JsonValue>,
    ) -> (r: Vec<ContentData>)
        ensures
            r.deep_view() == spec_create_content(
                data.deep_view(),
                title.deep_view(),
                columns.deep_view(),
                rows.deep_view(),
                metadata.deep_view(),
            ),
    {
        if Transformer::any_some(&data) {
            return Transformer::create_data_content(data, title, metadata);
        }
        if Transformer::any_some(&rows) {
            return Transformer::create_table_content(rows, columns, title, metadata);
        }
        let empty: Vec<ContentData> = Vec::new();
        proof {
            assert(empty.deep_view() =~= Seq::<SpecContentData>::empty());
        }
        empty
    }

    /// Resolves the record's content: each entry of the mapping's
    /// `content` list contributes its elements, in entry order.
    #[verifier::loop_isolation(false)]
    pub fn get_content(tokens: &Vec<Token>, mapping: &JsonValue) -> (r: Result<
        Option<Vec<ContentData>>,
        TransformError,
    >)
        requires
            sorted_tokens(tokens.deep_view()),
        ensures
            match r {
                Ok(opt) => spec_get_content(tokens.deep_view(), mapping@) == Ok::<
                    Option<Seq<SpecContentData>>,
                    SpecError,
                >(
                    match opt {
                        Some(v) => Some(v.deep_view()),
                        None => None,
                    },
                ),
                Err(e) => spec_get_content(tokens.deep_view(), mapping@) == Err::<
                    Option<Seq<SpecContentData>>,
                    SpecError,
                >(e@),
            },
    {
        let ghost dv = tokens.deep_view();
        let item = match mapping.get("content") {
            Some(value) => value,
            None => {
                return Ok(None);
            },
        };
        let entries = match item {
            JsonValue::Arr(entries) => entries,
            _ => {
                return Err(
                    TransformError::Configuration(
                        String::from_str("'content' mapping must be an array"),
                    ),
                );
            },
        };
        let ghost ev = crate::json::json_seq_view(entries@);
        let mut content: Vec<ContentData> = Vec::new();
        let mut e: usize = 0;
        proof {
            assert(ev.skip(0) =~= ev);
        }
        while e < entries.len()
            invariant
                e <= entries.len(),
                spec_content_entries(dv, ev) == match spec_content_entries(dv, ev.skip(e as int)) {
                    Err(err) => Err::<Seq<SpecContentData>, SpecError>(err),
                    Ok(rest) => Ok::<Seq<SpecContentData>, SpecError>(content.deep_view() + rest),
                },
            decreases entries.len() - e,
        {
            proof {
                assert(ev.skip(e as int)[0] == ev[e as int]);
                assert(ev.skip(e as int).drop_first() =~= ev.skip(e as int + 1));
            }
            let entry = &entries[e];
            let matches = match Transformer::get_all_tokens(tokens, entry) {
                Err(err) => {
                    return Err(err);
                },
                Ok(m) => m,
            };
            if !matches.is_empty() {
                let bound = match Transformer::get_max_indexes(&matches) {
                    Err(err) => {
                        return Err(err);
                    },
                    Ok(b) => b,
                };
                let data = match Transformer::get_array_value(
                    &matches,
                    entry,
                    bound.as_str(),
                    "data",
                ) {
                    Err(err) => {
                        return Err(err);
                    },
                    Ok(v) => v,
                };
                let title = match Transformer::get_array_value(
                    &matches,
                    entry,
                    bound.as_str(),
                    "title",
                ) {
                    Err(err) => {
                        return Err(err);
                    },
                    Ok(v) => v,
                };
                let columns = match Transformer::get_array_value(
                    &matches,
                    entry,
                    bound.as_str(),
                    "columns",
                ) {
                    Err(err) => {
                        return Err(err);
                    },
                    Ok(v) => v,
                };
                let rows = match Transformer::get_array_value(
                    &matches,
                    entry,
                    bound.as_str(),
                    "rows",
                ) {
                    Err(err) => {
                        return Err(err);
                    },
                    Ok(v) => v,
                };
                let metadata = match Transformer::get_array_metadata(
                    &matches,
                    entry,
                    bound.as_str(),
                ) {
                    Err(err) => {
                        return Err(err);
                    },
                    Ok(v) => v,
                };
                let mut elems = Transformer::create_content(data, title, columns, rows, metadata);
                let ghost prev = content.deep_view();
                let ghost elems_dv = elems.deep_view();
                content.append(&mut elems);
                proof {
                    assert(content.deep_view() =~= prev + elems_dv);
                    assert forall|rest: Seq<SpecContentData>| true implies content.deep_view()
                        + rest =~= prev + (elems_dv + rest) by {}
                }
            } else {
                proof {
                    assert(content.deep_view() + Seq::<SpecContentData>::empty()
                        =~= content.deep_view());
                }
            }
            e = e + 1;
        }
        proof {
            assert(ev.skip(entries@.len() as int) =~= Seq::<SpecJson>::empty());
            assert(content.deep_view() + Seq::<SpecContentData>::empty() =~= content.deep_view());
        }
        Ok(Some(content))
    }

    /// Transforms one record: resolves `id`, `name`, `metadata` and
    /// `content` against its token index and emits only the keys whose
    /// mapping entry resolved.
    pub fn transform(mapping: &JsonValue, tokens: &TokenIndex) -> (r: Result<
        crate::model::DocumentModel,
        TransformError,
    >)
        requires
            sorted_tokens(tokens.deep_view()),
        ensures
            doc_result_view(r) == spec_transform(mapping@, tokens.deep_view()),
    {
        let id = match mapping.get("id") {
            None => None,
            Some(_) => match Transformer::get_single_value(tokens, mapping, "id") {
                Err(e) => {
                    return Err(e);
                },
                Ok(opt) => opt,
            },
        };
        let name = match mapping.get("name") {
            None => None,
            Some(_) => match Transformer::get_single_value(tokens, mapping, "name") {
                Err(e) => {
                    return Err(e);
                },
                Ok(opt) => opt,
            },
        };
        let metadata = match Transformer::get_metadata(tokens, mapping) {
            Err(e) => {
                return Err(e);
            },
            Ok(opt) => opt,
        };
        let content = match Transformer::get_content(tokens, mapping) {
            Err(e) => {
                return Err(e);
            },
            Ok(opt) => opt,
        };
        Ok(crate::model::DocumentModel { id, name, metadata, content })
    }

    /// Relies on rayon's parallel iterator: `par_iter().map(..)` over a
    /// `Vec` is an indexed parallel iterator, so `collect()` returns the
    /// closure's results in input order, one per record.
    #[verifier::external_body]
    fn transform_all_parallel(mapping: &JsonValue, documents: &Vec<TokenIndex>) -> (r: Vec<
        Result<crate::model::DocumentModel, TransformError>,
    >)
        requires
            forall|i: int|
                0 <= i < documents.deep_view().len() ==> sorted_tokens(
                    #[trigger] documents.deep_view()[i],
                ),
        ensures
            r@.len() == documents@.len(),
            forall|i: int|
                0 <= i < r@.len() ==> doc_result_view(#[trigger] r@[i]) == spec_transform(
                    mapping@,
                    documents.deep_view()[i],
                ),
    {
        documents.par_iter().map(|tokens| Transformer::transform(mapping, tokens)).collect()
    }

    /// Transforms every record of a batch, in parallel, the outputs in
    /// input order; the first failing record decides the error.
    #[verifier::loop_isolation(false)]
    pub fn transform_documents(mapping: &JsonValue, documents: &Vec<TokenIndex>) -> (r: Result<
        Vec<crate::model::DocumentModel>,
        TransformError,
    >)
        requires
            forall|i: int|
                0 <= i < documents.deep_view().len() ==> sorted_tokens(
                    #[trigger] documents.deep_view()[i],
                ),
        ensures
            match r {
                Ok(v) => spec_transform_batch(mapping@, documents.deep_view()) == Ok::<
                    Seq<crate::model::SpecDocumentModel>,
                    SpecError,
                >(v.deep_view()),
                Err(e) => spec_transform_batch(mapping@, documents.deep_view()) == Err::<
                    Seq<crate::model::SpecDocumentModel>,
                    SpecError,
                >(e@),
            },
    {
        let ghost dvs = documents.deep_view();
        let mut results = Transformer::transform_all_parallel(mapping, documents);
        let ghost all = results@;
        let mut out: Vec<crate::model::DocumentModel> = Vec::new();
        let mut i: usize = 0;
        let total = documents.len();
        proof {
            assert(documents@.len() == dvs.len());
            assert(all.len() == total as int);
        }
        while results.len() > 0
            invariant
                i as int + results@.len() == all.len(),
                all.len() == dvs.len(),
                all.len() <= usize::MAX,
                forall|k: int| 0 <= k < results@.len() ==> #[trigger] results@[k] == all[i + k],
                out@.len() == i as int,
                spec_batch_from(mapping@, dvs, 0) == match spec_batch_from(
                    mapping@,
                    dvs,
                    i as int,
                ) {
                    Err(e) => Err::<Seq<crate::model::SpecDocumentModel>, SpecError>(e),
                    Ok(rest) => Ok::<Seq<crate::model::SpecDocumentModel>, SpecError>(
                        out.deep_view() + rest,
                    ),
                },
            decreases results@.len(),
        {
            let head = results.remove(0);
            proof {
                assert(head == all[i as int]);
                assert(doc_result_view(head) == spec_transform(mapping@, dvs[i as int]));
                let ghost shifted = i as int + 1;
                assert forall|k: int|
                    0 <= k < results@.len() implies #[trigger] results@[k] == all[shifted + k] by {
                }
            }
            match head {
                Err(e) => {
                    return Err(e);
                },
                Ok(d) => {
                    let ghost prev = out.deep_view();
                    out.push(d);
                    proof {
                        assert(out.deep_view() =~= prev + seq![out@[out@.len() - 1].deep_view()]);
                        assert forall|rest: Seq<crate::model::SpecDocumentModel>| true implies
                            out.deep_view() + rest =~= prev + (seq![
                            out@[out@.len() - 1].deep_view(),
                        ] + rest) by {}
                    }
                },
            }
            i = i + 1;
        }
        proof {
            assert(out.deep_view() + Seq::<crate::model::SpecDocumentModel>::empty()
                =~= out.deep_view());
        }
        Ok(out)
    }

    /// The contiguous run of tokens whose path equals `mapping`
    /// exactly, found by binary search over the sort order.
    #[verifier::loop_isolation(false)]
    pub fn reduce_tokens(tokens: &Vec<Token>, mapping: &str) -> (r: Vec<Token>)
        requires
            sorted_tokens(tokens.deep_view()),
        ensures
            r.deep_view() == tokens_with_path(tokens.deep_view(), mapping@),
    {
        let ghost dv = tokens.deep_view();
        let ghost p = mapping@;
        // the first position whose path is not below `mapping`
        let mut lo: usize = 0;
        let mut hi: usize = tokens.len();
        while lo < hi
            invariant
                0 <= lo <= hi <= tokens.len(),
                forall|t: int|
                    0 <= t < lo ==> lex_le(#[trigger] dv[t].path, p) && dv[t].path != p,
                forall|t: int| hi <= t < dv.len() ==> lex_le(p, #[trigger] dv[t].path),
            decreases hi - lo,
        {
            let mid = lo + (hi - lo) / 2;
            let c = str_cmp(tokens[mid].path.as_str(), mapping);
            if c < 0 {
                proof {
                    assert forall|t: int| 0 <= t < mid + 1 implies lex_le(
                        #[trigger] dv[t].path,
                        p,
                    ) && dv[t].path != p by {
                        assert(lex_le(dv[t].path, dv[mid as int].path));
                        lemma_lex_le_lt(dv[t].path, dv[mid as int].path, p);
                    }
                }
                lo = mid + 1;
            } else {
                proof {
                    assert forall|t: int| mid <= t < dv.len() implies lex_le(
                        p,
                        #[trigger] dv[t].path,
                    ) by {
                        assert(lex_le(dv[mid as int].path, dv[t].path));
                        lemma_lex_le_total(p, dv[mid as int].path);
                        crate::paths::lemma_lex_le_trans(p, dv[mid as int].path, dv[t].path);
                    }
                }
                hi = mid;
            }
        }
        let first = lo;
        // the first position whose path is above `mapping`
        let mut lo2: usize = first;
        let mut hi2: usize = tokens.len();
        while lo2 < hi2
            invariant
                first <= lo2 <= hi2 <= tokens.len(),
                forall|t: int| first <= t < lo2 ==> lex_le(#[trigger] dv[t].path, p),
                forall|t: int|
                    hi2 <= t < dv.len() ==> lex_le(p, #[trigger] dv[t].path) && dv[t].path != p,
            decreases hi2 - lo2,
        {
            let mid = lo2 + (hi2 - lo2) / 2;
            let c = str_cmp(tokens[mid].path.as_str(), mapping);
            if c <= 0 {
                proof {
                    assert forall|t: int| first <= t < mid + 1 implies lex_le(
                        #[trigger] dv[t].path,
                        p,
                    ) by {
                        assert(lex_le(dv[t].path, dv[mid as int].path));
                        crate::paths::lemma_lex_le_trans(dv[t].path, dv[mid as int].path, p);
                    }
                }
                lo2 = mid + 1;
            } else {
                proof {
                    assert forall|t: int| mid <= t < dv.len() implies lex_le(
                        p,
                        #[trigger] dv[t].path,
                    ) && dv[t].path != p by {
                        assert(lex_le(dv[mid as int].path, dv[t].path));
                        lemma_lex_lt_le(p, dv[mid as int].path, dv[t].path);
                    }
                }
                hi2 = mid;
            }
        }
        let last = lo2;
        proof {
            assert forall|t: int| first <= t < last implies (#[trigger] dv[t]).path == p by {
                crate::paths::lemma_lex_le_antisym(dv[t].path, p);
            }
            lemma_tokens_with_path_window(dv, p, first as int, last as int);
        }
        let mut r: Vec<Token> = Vec::new();
        let mut t: usize = first;
        while t < last
            invariant
                first <= t <= last,
                r.deep_view() == dv.subrange(first as int, t as int),
            decreases last - t,
        {
            let ghost prev = r.deep_view();
            r.push(tokens[t].duplicate());
            proof {
                assert(r.deep_view() =~= dv.subrange(first as int, t as int + 1));
            }
            t = t + 1;
        }
        r
    }
}

} // verus!

