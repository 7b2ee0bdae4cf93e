//! Flattening a JSON value into a sorted index of `(path, value)`
//! tokens.

use vstd::prelude::*;
use vstd::seq_lib::group_to_multiset_ensures;
use vstd::seq_lib::to_multiset_insert;
use vstd::string::StringExecFns;

use crate::json::json_fields_view;
use crate::json::json_seq_view;
use crate::json::JsonValue;
use crate::json::SpecJson;
use crate::paths::dec_rep;
use crate::paths::lemma_lex_le_total;
use crate::paths::lemma_lex_le_trans;
use crate::paths::lex_le;
use crate::paths::str_cmp;
use crate::paths::usize_to_string;

verus! {

/// One entry of a token index: a `$`-rooted, dot-separated path and the
/// value found there.
#[derive(Debug, PartialEq, Eq)]
pub struct Token {
    pub path: String,
    pub value: JsonValue,
}

/// The mathematical model of a `Token`.
#[verifier::ext_equal]
pub struct SpecToken {
    pub path: Seq<char>,
    pub value: SpecJson,
}

impl View for Token {
    type V = SpecToken;

    open spec fn view(&self) -> SpecToken {
        SpecToken { path: self.path@, value: self.value@ }
    }
}

impl DeepView for Token {
    type V = SpecToken;

    open spec fn deep_view(&self) -> SpecToken {
        self.view()
    }
}

impl Token {
    /// A structural copy of the token.
    pub fn duplicate(&self) -> (r: Token)
        ensures
            r@ == self@,
    {
        Token { path: self.path.clone(), value: self.value.deep_clone() }
    }
}

/// The tokens of one logical record, sorted ascending by path.
pub type TokenIndex = Vec<Token>;

/// Whether `ts` is sorted ascending by path.
pub open spec fn sorted_tokens(ts: Seq<SpecToken>) -> bool {
    forall|i: int, j: int|
        0 <= i <= j < ts.len() ==> lex_le(#[trigger] ts[i].path, #[trigger] ts[j].path)
}

/// The tokens of `v` rooted at `root`, in structural order: an object
/// contributes its fields' tokens under `root.key`; an array whose
/// elements are all objects contributes its elements' tokens under
/// `root.index`; any other value, an array of any other shape included,
/// is one leaf token at `root`.
pub open spec fn spec_flatten(v: SpecJson, root: Seq<char>) -> Seq<SpecToken>
    decreases v,
{
    match v {
        SpecJson::Obj(fields) => spec_flatten_fields(fields, root),
        SpecJson::Arr(items) => if all_objects(items) {
            spec_flatten_array(items, root, 0)
        } else {
            seq![SpecToken { path: root, value: v }]
        },
        _ => seq![SpecToken { path: root, value: v }],
    }
}

/// The tokens of an object's fields, in field order.
pub open spec fn spec_flatten_fields(
    fields: Seq<(Seq<char>, SpecJson)>,
    root: Seq<char>,
) -> Seq<SpecToken>
    decreases fields,
{
    if fields.len() == 0 {
        Seq::empty()
    } else {
        spec_flatten(fields[0].1, root + seq!['.'] + fields[0].0) + spec_flatten_fields(
            fields.drop_first(),
            root,
        )
    }
}

/// Whether every element is an object.
pub open spec fn all_objects(items: Seq<SpecJson>) -> bool {
    forall|t: int| 0 <= t < items.len() ==> (#[trigger] items[t]) is Obj
}

/// The tokens of an array's elements, the element at offset `i` indexed
/// `base + i`.
pub open spec fn spec_flatten_array(items: Seq<SpecJson>, root: Seq<char>, base: nat) -> Seq<
    SpecToken,
>
    decreases items,
{
    if items.len() == 0 {
        Seq::empty()
    } else {
        spec_flatten(items[0], root + seq!['.'] + dec_rep(base)) + spec_flatten_array(
            items.drop_first(),
            root,
            base + 1,
        )
    }
}

/// Flattens one JSON document into one token index per logical record.
pub struct Tokenizer;

impl Tokenizer {
    /// The tokens of `v` rooted at `root`, in structural order.
    #[verifier::loop_isolation(false)]
    fn flatten_value(v: &JsonValue, root: String) -> (r: Vec<Token>)
        ensures
            r.deep_view() == spec_flatten(v@, root@),
        decreases v,
    {
        match v {
            JsonValue::Obj(fields) => {
                let mut r: Vec<Token> = Vec::new();
                let ghost fv = json_fields_view(fields@);
                let mut i: usize = 0;
                proof {
                    assert(fv.skip(0) =~= fv);
                    assert(r.deep_view() + spec_flatten_fields(fv, root@) =~= spec_flatten_fields(
                        fv,
                        root@,
                    ));
                }
                while i < fields.len()
                    invariant
                        i <= fields.len(),
                        spec_flatten_fields(fv, root@) == r.deep_view() + spec_flatten_fields(
                            fv.skip(i as int),
                            root@,
                        ),
                    decreases fields.len() - i,
                {
                    let mut path = root.clone();
                    path.append(".");
                    path.append(fields[i].0.as_str());
                    proof {
                        reveal_strlit(".");
                        assert(path@ =~= root@ + seq!['.'] + fv[i as int].0);
                        assert(fv.skip(i as int)[0] == fv[i as int]);
                        assert(fv.skip(i as int).drop_first() =~= fv.skip(i as int + 1));
                    }
                    let mut nested = Tokenizer::flatten_value(&fields[i].1, path);
                    let ghost prev = r.deep_view();
                    let ghost nest = nested.deep_view();
                    r.append(&mut nested);
                    proof {
                        assert(r.deep_view() =~= prev + nest);
                        assert(r.deep_view() + spec_flatten_fields(fv.skip(i as int + 1), root@)
                            =~= prev + spec_flatten_fields(fv.skip(i as int), root@));
                    }
                    i = i + 1;
                }
                proof {
                    assert(fv.skip(fields@.len() as int) =~= Seq::<(Seq<char>, SpecJson)>::empty());
                    assert(r.deep_view() =~= r.deep_view() + spec_flatten_fields(
                        fv.skip(fields@.len() as int),
                        root@,
                    ));
                }
                r
            },
            JsonValue::Arr(items) => {
                let mut every_object = true;
                let mut i: usize = 0;
                proof {
                    assert(json_seq_view(items@).take(0) =~= Seq::<SpecJson>::empty());
                }
                while i < items.len()
                    invariant
                        i <= items.len(),
                        every_object == all_objects(json_seq_view(items@).take(i as int)),
                    decreases items.len() - i,
                {
                    let ghost pre = json_seq_view(items@).take(i as int);
                    let ghost now = json_seq_view(items@).take(i as int + 1);
                    let obj_here = items[i].is_object();
                    if !obj_here {
                        every_object = false;
                    }
                    proof {
                        assert(now.drop_last() =~= pre);
                        assert(now.last() == items@[i as int]@);
                        assert forall|t: int| 0 <= t < now.len() && all_objects(pre)
                            && items@[i as int]@ is Obj implies (#[trigger] now[t]) is Obj by {
                            if t < pre.len() {
                                assert(now[t] == pre[t]);
                            }
                        }
                        if !(all_objects(pre) && items@[i as int]@ is Obj) && all_objects(now) {
                            assert(now.last() is Obj);
                            assert forall|t: int| 0 <= t < pre.len() implies (#[trigger] pre[t])
                                is Obj by {
                                assert(now[t] == pre[t]);
                            }
                        }
                    }
                    i = i + 1;
                }
                proof {
                    assert(json_seq_view(items@).take(items@.len() as int) =~= json_seq_view(
                        items@,
                    ));
                }
                if every_object {
                    let ghost iv = json_seq_view(items@);
                    let mut r: Vec<Token> = Vec::new();
                    let mut i: usize = 0;
                    proof {
                        assert(iv.skip(0) =~= iv);
                        assert(r.deep_view() + spec_flatten_array(iv, root@, 0)
                            =~= spec_flatten_array(iv, root@, 0));
                    }
                    while i < items.len()
                        invariant
                            i <= items.len(),
                            spec_flatten_array(iv, root@, 0) == r.deep_view() + spec_flatten_array(
                                iv.skip(i as int),
                                root@,
                                i as nat,
                            ),
                        decreases items.len() - i,
                    {
                        let mut path = root.clone();
                        path.append(".");
                        let num = usize_to_string(i);
                        path.append(num.as_str());
                        proof {
                            reveal_strlit(".");
                            assert(path@ =~= root@ + seq!['.'] + dec_rep(i as nat));
                            assert(iv.skip(i as int)[0] == iv[i as int]);
                            assert(iv.skip(i as int).drop_first() =~= iv.skip(i as int + 1));
                        }
                        let mut nested = Tokenizer::flatten_value(&items[i], path);
                        let ghost prev = r.deep_view();
                        let ghost nest = nested.deep_view();
                        r.append(&mut nested);
                        proof {
                            assert(r.deep_view() =~= prev + nest);
                            assert(r.deep_view() + spec_flatten_array(
                                iv.skip(i as int + 1),
                                root@,
                                i as nat + 1,
                            ) =~= prev + spec_flatten_array(iv.skip(i as int), root@, i as nat));
                        }
                        i = i + 1;
                    }
                    proof {
                        assert(iv.skip(items@.len() as int) =~= Seq::<SpecJson>::empty());
                        assert(r.deep_view() =~= r.deep_view() + spec_flatten_array(
                            iv.skip(items@.len() as int),
                            root@,
                            items@.len() as nat,
                        ));
                    }
                    r
                } else {
                    let leaf = Token { path: root, value: v.deep_clone() };
                    let mut r: Vec<Token> = Vec::new();
                    r.push(leaf);
                    proof {
                        assert(r.deep_view() =~= spec_flatten(v@, root@));
                    }
                    r
                }
            },
            _ => {
                let leaf = Token { path: root, value: v.deep_clone() };
                let mut r: Vec<Token> = Vec::new();
                r.push(leaf);
                proof {
                    assert(r.deep_view() =~= spec_flatten(v@, root@));
                }
                r
            },
        }
    }

    /// Sorts the tokens ascending by path, keeping the same tokens.
    #[verifier::loop_isolation(false)]
    fn sort_tokens(tokens: &mut Vec<Token>)
        ensures
            sorted_tokens(final(tokens).deep_view()),
            final(tokens).deep_view().to_multiset() == old(tokens).deep_view().to_multiset(),
    {
        broadcast use group_to_multiset_ensures;
        broadcast use to_multiset_insert;

        if tokens.len() < 2 {
            proof {
                if tokens.deep_view().len() == 1 {
                    lemma_lex_le_total(tokens.deep_view()[0].path, tokens.deep_view()[0].path);
                }
            }
            return ;
        }
        let mut i: usize = 1;
        proof {
            lemma_lex_le_total(tokens.deep_view()[0].path, tokens.deep_view()[0].path);
        }
        while i < tokens.len()
            invariant
                1 <= i <= tokens@.len(),
                tokens@.len() == old(tokens)@.len(),
                forall|a: int, b: int|
                    0 <= a <= b < i ==> lex_le(
                        #[trigger] tokens.deep_view()[a].path,
                        #[trigger] tokens.deep_view()[b].path,
                    ),
                tokens.deep_view().to_multiset() == old(tokens).deep_view().to_multiset(),
            decreases tokens@.len() - i,
        {
            let mut pos: usize = i;
            while pos > 0 && str_cmp(tokens[pos - 1].path.as_str(), tokens[i].path.as_str()) > 0
                invariant
                    0 <= pos <= i < tokens@.len(),
                    forall|b: int|
                        pos <= b < i ==> lex_le(
                            tokens.deep_view()[i as int].path,
                            #[trigger] tokens.deep_view()[b].path,
                        ),
                decreases pos,
            {
                proof {
                    let dv = tokens.deep_view();
                    lemma_lex_le_total(dv[pos - 1].path, dv[i as int].path);
                }
                pos = pos - 1;
            }
            proof {
                if pos > 0 {
                    let dv = tokens.deep_view();
                    lemma_lex_le_total(dv[pos - 1].path, dv[i as int].path);
                }
            }
            let ghost before = tokens.deep_view();
            let moved = tokens.remove(i);
            tokens.insert(pos, moved);
            proof {
                let after = tokens.deep_view();
                assert(after =~= before.remove(i as int).insert(pos as int, before[i as int]));
                lemma_insert_sorted_prefix(before, i as int, pos as int);
                assert(before.remove(i as int).to_multiset() == before.to_multiset().remove(
                    before[i as int],
                ));
                assert(before.remove(i as int).insert(pos as int, before[i as int]).to_multiset()
                    == before.remove(i as int).to_multiset().insert(before[i as int]));
                assert(before.contains(before[i as int]));
                assert(before.to_multiset().count(before[i as int]) > 0);
                assert(before.to_multiset().remove(before[i as int]).insert(before[i as int])
                    =~= before.to_multiset());
            }
            i = i + 1;
        }
    }

    /// The selector normalized to dot-separated form.
    #[verifier::loop_isolation(false)]
    fn normalize_selector(r: &str) -> (out: String)
        ensures
            out@ == normalize_root(r@),
    {
        let len = r.unicode_len();
        let mut out = String::new();
        let mut k: usize = 0;
        proof {
            reveal_strlit(".");
            assert(r@.take(0) =~= Seq::<char>::empty());
        }
        while k < len
            invariant
                k <= len,
                len == r@.len(),
                out@ == normalize_root(r@.take(k as int)),
            decreases len - k,
        {
            proof {
                assert(r@.take(k as int + 1).drop_last() =~= r@.take(k as int));
                assert(r@.take(k as int + 1).last() == r@[k as int]);
            }
            let c = r.get_char(k);
            if c == '$' || c == ']' {
            } else if c == '[' {
                out.append(".");
                proof {
                    assert(out@ =~= normalize_root(r@.take(k as int + 1)));
                }
            } else {
                let piece = r.substring_char(k, k + 1);
                out.append(piece);
                proof {
                    assert(piece@ =~= seq![r@[k as int]]);
                    assert(out@ =~= normalize_root(r@.take(k as int + 1)));
                }
            }
            k = k + 1;
        }
        proof {
            assert(r@.take(len as int) =~= r@);
        }
        out
    }

    /// The dot-separated segments of a normalized selector.
    #[verifier::loop_isolation(false)]
    fn split_selector(s: &str) -> (r: Vec<String>)
        ensures
            r.deep_view() == split_segs(s@),
    {
        let len = s.unicode_len();
        let mut out: Vec<String> = Vec::new();
        let mut i: usize = 0;
        proof {
            assert(s@.skip(0) =~= s@);
            assert(forall|rest: Seq<Seq<char>>| out.deep_view() + rest =~= rest);
        }
        while i < len
            invariant
                i <= len,
                len == s@.len(),
                split_segs(s@) == out.deep_view() + split_segs(s@.skip(i as int)),
            decreases len - i,
        {
            let ghost tail = s@.skip(i as int);
            let mut j: usize = i;
            while j < len && s.get_char(j) != '.'
                invariant
                    i <= j <= len,
                    forall|t: int| i <= t < j ==> s@[t] != '.',
                decreases len - j,
            {
                j = j + 1;
            }
            proof {
                assert forall|t: int| 0 <= t < j - i implies tail[t] != '.' by {
                    assert(tail[t] == s@[i + t]);
                }
                if j < len {
                    assert(tail[j - i] == s@[j as int]);
                }
                crate::paths::lemma_sep_len_exact(tail, '.', j as int - i as int);
                assert(tail.take(j - i) =~= s@.subrange(i as int, j as int));
            }
            let piece = s.substring_char(i, j).to_owned();
            let ghost prev = out.deep_view();
            out.push(piece);
            proof {
                assert(out.deep_view() =~= prev + seq![s@.subrange(i as int, j as int)]);
            }
            if j == len {
                proof {
                    assert(s@.skip(len as int) =~= Seq::<char>::empty());
                    assert(split_segs(tail) == seq![tail.take(j - i)]);
                    assert(out.deep_view() + split_segs(s@.skip(len as int)) =~= prev
                        + split_segs(tail));
                }
                i = len;
            } else {
                proof {
                    assert(tail.skip(j - i + 1) =~= s@.skip(j as int + 1));
                    assert forall|rest: Seq<Seq<char>>| true implies out.deep_view() + rest =~= prev
                        + (seq![tail.take(j - i)] + rest) by {}
                }
                i = j + 1;
            }
        }
        proof {
            assert(s@.skip(len as int) =~= Seq::<char>::empty());
            assert(out.deep_view() + Seq::<Seq<char>>::empty() =~= out.deep_view());
        }
        out
    }

    /// The value the segments from `d` on point at.
    fn resolve_segments<'a>(v: &'a JsonValue, segs: &Vec<String>, d: usize) -> (r: Option<
        &'a JsonValue,
    >)
        requires
            d <= segs@.len(),
        ensures
            match r {
                Some(w) => resolve_pointer(v@, segs.deep_view(), d as int) == Some(w@),
                None => resolve_pointer(v@, segs.deep_view(), d as int) is None,
            },
        decreases segs@.len() - d,
    {
        if d == segs.len() {
            return Some(v);
        }
        proof {
            assert(segs.deep_view()[d as int] == segs@[d as int]@);
        }
        match v {
            JsonValue::Obj(_) => {
                match v.get(segs[d].as_str()) {
                    Some(w) => Tokenizer::resolve_segments(w, segs, d + 1),
                    None => None,
                }
            },
            JsonValue::Arr(items) => {
                match crate::paths::parse_seg_index(segs[d].as_str()) {
                    Some(idx) => {
                        if idx < items.len() {
                            proof {
                                assert(crate::json::json_seq_view(items@)[idx as int]
                                    == items@[idx as int]@);
                            }
                            Tokenizer::resolve_segments(&items[idx], segs, d + 1)
                        } else {
                            None
                        }
                    },
                    None => {
                        let n = items.len();
                        proof {
                            assert(items@.len() == n as int);
                        }
                        None
                    },
                }
            },
            _ => None,
        }
    }

    /// The token indexes of a parsed document, one per logical record:
    /// the document, narrowed by `root` when one is given, yields one
    /// index when it is an object and one index per element when it is
    /// an array; any other shape is a data error, as is a selector that
    /// does not resolve.
    #[verifier::loop_isolation(false)]
    pub fn tokenize_document(document: &JsonValue, root: Option<&str>) -> (r: Result<
        Vec<TokenIndex>,
        crate::model::TransformError,
    >)
        ensures
            match r {
                Ok(indexes) => {
                    let nv = spec_narrow(
                        document@,
                        match root {
                            Some(s) => Some(s@),
                            None => None,
                        },
                    );
                    &&& nv is Some
                    &&& match nv.unwrap() {
                        SpecJson::Obj(fields) => indexes.deep_view().len() == 1 && index_of_record(
                            indexes.deep_view()[0],
                            nv.unwrap(),
                        ),
                        SpecJson::Arr(items) => indexes.deep_view().len() == items.len()
                            && forall|i: int|
                            0 <= i < items.len() ==> index_of_record(
                                #[trigger] indexes.deep_view()[i],
                                items[i],
                            ),
                        _ => false,
                    }
                },
                Err(e) => {
                    let nv = spec_narrow(
                        document@,
                        match root {
                            Some(s) => Some(s@),
                            None => None,
                        },
                    );
                    match nv {
                        None => e@ == crate::model::SpecError::Data(
                            "narrowing selector did not resolve"@,
                        ),
                        Some(d) => !(d is Obj) && !(d is Arr) && e@ == crate::model::SpecError::Data(
                            "invalid JSON document"@,
                        ),
                    }
                },
            },
    {
        let narrowed: &JsonValue = match root {
            None => document,
            Some(rt) => {
                let normalized = Tokenizer::normalize_selector(rt);
                let nlen = normalized.as_str().unicode_len();
                let trimmed: &str = if nlen > 0 && normalized.as_str().get_char(0) == '.' {
                    let t = normalized.as_str().substring_char(1, nlen);
                    proof {
                        assert(t@ =~= normalize_root(rt@).drop_first());
                    }
                    t
                } else {
                    normalized.as_str()
                };
                let segs = Tokenizer::split_selector(trimmed);
                match Tokenizer::resolve_segments(document, &segs, 0) {
                    Some(w) => w,
                    None => {
                        return Err(
                            crate::model::TransformError::Data(
                                String::from_str("narrowing selector did not resolve"),
                            ),
                        );
                    },
                }
            },
        };
        match narrowed {
            JsonValue::Obj(_) => {
                let ts = Tokenizer::tokenize(narrowed, None);
                let mut out: Vec<TokenIndex> = Vec::new();
                out.push(ts);
                proof {
                    assert(out.deep_view().len() == 1);
                    assert(out.deep_view()[0] =~= out@[0].deep_view());
                }
                Ok(out)
            },
            JsonValue::Arr(items) => {
                let ghost iv = crate::json::json_seq_view(items@);
                let mut out: Vec<TokenIndex> = Vec::new();
                let mut i: usize = 0;
                while i < items.len()
                    invariant
                        i <= items.len(),
                        out.deep_view().len() == i as int,
                        forall|k: int|
                            0 <= k < i ==> index_of_record(#[trigger] out.deep_view()[k], iv[k]),
                    decreases items.len() - i,
                {
                    let ts = Tokenizer::tokenize(&items[i], None);
                    let ghost prev = out.deep_view();
                    out.push(ts);
                    proof {
                        assert(out.deep_view() =~= prev.push(out@[i as int].deep_view()));
                        assert(iv[i as int] == items@[i as int]@);
                        assert(index_of_record(out.deep_view()[i as int], iv[i as int]));
                    }
                    i = i + 1;
                }
                Ok(out)
            },
            _ => {
                Err(
                    crate::model::TransformError::Data(
                        String::from_str("invalid JSON document"),
                    ),
                )
            },
        }
    }

    /// The sorted token index of `v` rooted at `root` (or at `$`).
    pub fn tokenize(document: &JsonValue, root: Option<String>) -> (r: TokenIndex)
        ensures
            sorted_tokens(r.deep_view()),
            r.deep_view().to_multiset() == spec_flatten(
                document@,
                match root {
                    Some(s) => s@,
                    None => "$"@,
                },
            ).to_multiset(),
    {
        let rootstr = match root {
            Some(s) => s,
            None => String::from_str("$"),
        };
        let mut tokens = Tokenizer::flatten_value(document, rootstr);
        Tokenizer::sort_tokens(&mut tokens);
        tokens
    }
}

/// A narrowing selector normalized to dot-separated form: `$` and `]`
/// are dropped, `[` becomes `.`.
pub open spec fn normalize_root(s: Seq<char>) -> Seq<char>
    decreases s.len(),
{
    if s.len() == 0 {
        Seq::empty()
    } else {
        let rest = normalize_root(s.drop_last());
        if s.last() == '$' || s.last() == ']' {
            rest
        } else if s.last() == '[' {
            rest + seq!['.']
        } else {
            rest + seq![s.last()]
        }
    }
}

/// The dot-separated segments of a normalized selector.
pub open spec fn split_segs(s: Seq<char>) -> Seq<Seq<char>>
    decreases s.len(),
    via split_segs_decreases
{
    if s.len() == 0 {
        Seq::empty()
    } else {
        let k = crate::paths::sep_len(s, '.') as int;
        if k == s.len() {
            seq![s.take(k)]
        } else {
            seq![s.take(k)] + split_segs(s.skip(k + 1))
        }
    }
}

#[via_fn]
proof fn split_segs_decreases(s: Seq<char>) {
    crate::paths::lemma_sep_len_props(s, '.');
}

/// The segments of a narrowing selector: the normalized form, its
/// leading dot dropped, split on dots.
pub open spec fn root_segments(r: Seq<char>) -> Seq<Seq<char>> {
    let n = normalize_root(r);
    if n.len() > 0 && n[0] == '.' {
        split_segs(n.drop_first())
    } else {
        split_segs(n)
    }
}

/// The value the segments from `d` on point at: a segment selects an
/// object's field by name, an array's element by decimal index.
pub open spec fn resolve_pointer(v: SpecJson, segs: Seq<Seq<char>>, d: int) -> Option<SpecJson>
    decreases segs.len() - d,
{
    if d < 0 || d >= segs.len() {
        Some(v)
    } else {
        match v {
            SpecJson::Obj(fields) => match crate::json::fields_get(fields, segs[d]) {
                Some(w) => resolve_pointer(w, segs, d + 1),
                None => None,
            },
            SpecJson::Arr(items) => if crate::paths::digits_only(segs[d])
                && crate::paths::dec_value(segs[d]) < items.len() {
                resolve_pointer(items[crate::paths::dec_value(segs[d]) as int], segs, d + 1)
            } else {
                None
            },
            _ => None,
        }
    }
}

/// The sub-tree a narrowing selector picks out of a document, the whole
/// document without one.
pub open spec fn spec_narrow(doc: SpecJson, root: Option<Seq<char>>) -> Option<SpecJson> {
    match root {
        None => Some(doc),
        Some(r) => resolve_pointer(doc, root_segments(r), 0),
    }
}

/// Whether `ts` is the token index of the record `v`: sorted by path
/// and carrying exactly the tokens of `v` rooted at `$`.
pub open spec fn index_of_record(ts: Seq<SpecToken>, v: SpecJson) -> bool {
    &&& sorted_tokens(ts)
    &&& ts.to_multiset() == spec_flatten(v, "$"@).to_multiset()
}

/// Moving the element at `i` down to `pos` keeps a sorted prefix sorted
/// one place further.
proof fn lemma_insert_sorted_prefix(before: Seq<SpecToken>, i: int, pos: int)
    requires
        0 <= pos <= i < before.len(),
        forall|a: int, b: int|
            0 <= a <= b < i ==> lex_le(#[trigger] before[a].path, #[trigger] before[b].path),
        forall|b: int| pos <= b < i ==> lex_le(before[i].path, #[trigger] before[b].path),
        pos > 0 ==> lex_le(before[pos - 1].path, before[i].path),
    ensures
        forall|a: int, b: int|
            0 <= a <= b <= i ==> lex_le(
                #[trigger] before.remove(i).insert(pos, before[i])[a].path,
                #[trigger] before.remove(i).insert(pos, before[i])[b].path,
            ),
{
    let after = before.remove(i).insert(pos, before[i]);
    assert forall|a: int| 0 <= a <= i implies #[trigger] after[a] == (if a < pos {
        before[a]
    } else if a == pos {
        before[i]
    } else {
        before[a - 1]
    }) by {
        if a < pos {
            assert(before.remove(i)[a] == before[a]);
        } else if a > pos {
            assert(before.remove(i)[a - 1] == before[a - 1]);
        }
    }
    assert forall|a: int, b: int| 0 <= a <= b <= i implies lex_le(
        #[trigger] after[a].path,
        #[trigger] after[b].path,
    ) by {
        if a == b {
            lemma_lex_le_total(after[a].path, after[b].path);
        } else if b < pos {
            assert(lex_le(before[a].path, before[b].path));
        } else if b == pos {
            if a < pos {
                assert(lex_le(before[a].path, before[pos - 1].path));
                lemma_lex_le_trans(before[a].path, before[pos - 1].path, before[i].path);
            }
        } else if a < pos {
            assert(lex_le(before[i].path, before[b - 1].path));
            assert(lex_le(before[a].path, before[pos - 1].path));
            lemma_lex_le_trans(before[a].path, before[pos - 1].path, before[i].path);
            lemma_lex_le_trans(before[a].path, before[i].path, before[b - 1].path);
        } else if a == pos {
            assert(lex_le(before[i].path, before[b - 1].path));
        } else {
            assert(lex_le(before[a - 1].path, before[b - 1].path));
        }
    }
}

} // verus!
