//! Streaming rewrite of per-part relationship members.
//!
//! Every self-closing `Relationship` element whose `Target` attribute equals
//! a renamed media path (in document-relative form) is re-emitted with the
//! new path; every other token passes through byte for byte.

use vstd::prelude::*;
use vstd::string::*;

use crate::xml::{
    attrs_view, bytes_eq, concat_raws, emit, tokenize, toks_view, xml_tokens_of, TokenKind,
    TokenModel, XmlToken,
};
use crate::Error;

verus! {

/// The first value paired with key `k`, searching the pairs in order.
pub open spec fn map_lookup(m: Seq<(Seq<u8>, Seq<u8>)>, k: Seq<u8>) -> Option<Seq<u8>>
    decreases m.len(),
{
    if m.len() == 0 {
        None
    } else if m[0].0 == k {
        Some(m[0].1)
    } else {
        map_lookup(m.skip(1), k)
    }
}

/// A `Target` attribute whose value is a renamed path gets the new path;
/// every other attribute is unchanged.
pub open spec fn rewrite_attr(a: (Seq<u8>, Seq<u8>), m: Seq<(Seq<u8>, Seq<u8>)>) -> (
    Seq<u8>,
    Seq<u8>,
) {
    if a.0 == "Target".spec_bytes() {
        match map_lookup(m, a.1) {
            Some(v) => (a.0, v),
            None => a,
        }
    } else {
        a
    }
}

/// Rewrites every attribute of an element.
pub open spec fn rewrite_attrs(attrs: Seq<(Seq<u8>, Seq<u8>)>, m: Seq<(Seq<u8>, Seq<u8>)>) -> Seq<
    (Seq<u8>, Seq<u8>),
> {
    attrs.map_values(|a: (Seq<u8>, Seq<u8>)| rewrite_attr(a, m))
}

/// The serialized form of an attribute list: ` key="value"` for each.
pub open spec fn attrs_raw(attrs: Seq<(Seq<u8>, Seq<u8>)>) -> Seq<u8>
    decreases attrs.len(),
{
    if attrs.len() == 0 {
        Seq::empty()
    } else {
        attrs_raw(attrs.drop_last()) + " ".spec_bytes() + attrs.last().0 + "=\"".spec_bytes()
            + attrs.last().1 + "\"".spec_bytes()
    }
}

/// The serialized form of a self-closing element.
pub open spec fn elem_raw(name: Seq<u8>, attrs: Seq<(Seq<u8>, Seq<u8>)>) -> Seq<u8> {
    "<".spec_bytes() + name + attrs_raw(attrs) + "/>".spec_bytes()
}

/// Whether a token is a self-closing `Relationship` element.
pub open spec fn is_relationship(t: TokenModel) -> bool {
    t.kind == TokenKind::EmptyTag && t.name == "Relationship".spec_bytes()
}

/// The rewritten form of one token: a `Relationship` element with a renamed
/// target is rebuilt, everything else (and an element no rename touches)
/// keeps its raw bytes.
pub open spec fn rewrite_token(t: TokenModel, m: Seq<(Seq<u8>, Seq<u8>)>) -> TokenModel {
    if is_relationship(t) {
        let a2 = rewrite_attrs(t.attrs, m);
        if a2 == t.attrs {
            t
        } else {
            TokenModel { kind: t.kind, name: t.name, attrs: a2, raw: elem_raw(t.name, a2) }
        }
    } else {
        t
    }
}

/// The rewritten token stream.
pub open spec fn spec_patch_rels(toks: Seq<TokenModel>, m: Seq<(Seq<u8>, Seq<u8>)>) -> Seq<
    TokenModel,
> {
    toks.map_values(|t: TokenModel| rewrite_token(t, m))
}

/// With no renames, relationship patching is the identity on tokens.
pub proof fn lemma_rels_empty(toks: Seq<TokenModel>, m: Seq<(Seq<u8>, Seq<u8>)>)
    requires
        m.len() == 0,
    ensures
        spec_patch_rels(toks, m) == toks,
{
    assert forall|i: int| 0 <= i < toks.len() implies #[trigger] spec_patch_rels(toks, m)[i]
        == toks[i] by {
        let t = toks[i];
        if is_relationship(t) {
            assert(rewrite_attrs(t.attrs, m) =~= t.attrs);
        }
    }
    assert(spec_patch_rels(toks, m) =~= toks);
}

/// Every relationship target that equals a renamed path is replaced by the
/// new path in the rewritten stream.
pub proof fn lemma_rels_rewrites(
    toks: Seq<TokenModel>,
    m: Seq<(Seq<u8>, Seq<u8>)>,
    i: int,
    j: int,
)
    requires
        0 <= i < toks.len(),
        is_relationship(toks[i]),
        0 <= j < toks[i].attrs.len(),
        toks[i].attrs[j].0 == "Target".spec_bytes(),
        map_lookup(m, toks[i].attrs[j].1) is Some,
    ensures
        spec_patch_rels(toks, m)[i].attrs[j] == (
            "Target".spec_bytes(),
            map_lookup(m, toks[i].attrs[j].1).unwrap(),
        ),
{
    let t = toks[i];
    let a2 = rewrite_attrs(t.attrs, m);
    assert(a2[j] == rewrite_attr(t.attrs[j], m));
    if a2 == t.attrs {
        assert(t.attrs[j] == a2[j]);
    }
}

/// Looks a document-relative path up among the rename pairs; the first pair
/// whose original path equals the key wins.
fn lookup(renames: &Vec<(Vec<u8>, Vec<u8>)>, k: &Vec<u8>) -> (r: Option<Vec<u8>>)
    ensures
        r matches Some(v) ==> map_lookup(attrs_view(renames@), k@) == Some(v@),
        r is None ==> map_lookup(attrs_view(renames@), k@) is None,
{
    let ghost m = attrs_view(renames@);
    let mut i: usize = 0;
    proof {
        assert(m.skip(0) =~= m);
    }
    while i < renames.len()
        invariant
            i <= renames@.len(),
            m == attrs_view(renames@),
            map_lookup(m, k@) == map_lookup(m.skip(i as int), k@),
        decreases renames@.len() - i,
    {
        proof {
            assert(m.skip(i as int)[0] == m[i as int]);
            assert(m.skip(i as int).skip(1) =~= m.skip(i + 1));
            assert(m[i as int] == (renames@[i as int].0@, renames@[i as int].1@));
        }
        if bytes_eq(renames[i].0.as_slice(), k.as_slice()) {
            return Some(vstd::slice::slice_to_vec(renames[i].1.as_slice()));
        }
        i = i + 1;
    }
    proof {
        assert(m.skip(m.len() as int) =~= Seq::<(Seq<u8>, Seq<u8>)>::empty());
    }
    None
}

/// Serializes a self-closing element from its name and attributes.
fn build_elem(name: &Vec<u8>, attrs: &Vec<(Vec<u8>, Vec<u8>)>) -> (r: Vec<u8>)
    ensures
        r@ == elem_raw(name@, attrs_view(attrs@)),
{
    let ghost av = attrs_view(attrs@);
    let mut out: Vec<u8> = Vec::new();
    out.extend_from_slice(("<").as_bytes());
    out.extend_from_slice(name.as_slice());
    let mut i: usize = 0;
    proof {
        assert(attrs_raw(av.take(0)) =~= Seq::<u8>::empty());
        assert(out@ =~= "<".spec_bytes() + name@ + attrs_raw(av.take(0)));
    }
    while i < attrs.len()
        invariant
            i <= attrs@.len(),
            av == attrs_view(attrs@),
            out@ == "<".spec_bytes() + name@ + attrs_raw(av.take(i as int)),
        decreases attrs@.len() - i,
    {
        out.extend_from_slice((" ").as_bytes());
        out.extend_from_slice(attrs[i].0.as_slice());
        out.extend_from_slice(("=\"").as_bytes());
        out.extend_from_slice(attrs[i].1.as_slice());
        out.extend_from_slice(("\"").as_bytes());
        proof {
            assert(av.take(i + 1).drop_last() =~= av.take(i as int));
            assert(av.take(i + 1).last() == av[i as int]);
            assert(av[i as int] == (attrs@[i as int].0@, attrs@[i as int].1@));
            assert(out@ =~= "<".spec_bytes() + name@ + attrs_raw(av.take(i + 1)));
        }
        i = i + 1;
    }
    out.extend_from_slice(("/>").as_bytes());
    proof {
        assert(av.take(av.len() as int) =~= av);
        assert(out@ =~= elem_raw(name@, av));
    }
    out
}

/// Rewrites one token against the rename pairs.
fn rewrite_token_exec(t: &XmlToken, renames: &Vec<(Vec<u8>, Vec<u8>)>) -> (out: XmlToken)
    ensures
        out@ == rewrite_token(t@, attrs_view(renames@)),
{
    let ghost m = attrs_view(renames@);
    let is_rel = match t.kind {
        TokenKind::EmptyTag => bytes_eq(t.name.as_slice(), ("Relationship").as_bytes()),
        _ => false,
    };
    if !is_rel {
        let c = copy_token(t);
        return c;
    }
    let mut new_attrs: Vec<(Vec<u8>, Vec<u8>)> = Vec::new();
    let mut changed = false;
    let ghost mut witness: int = 0;
    let mut i: usize = 0;
    while i < t.attrs.len()
        invariant
            i <= t.attrs@.len(),
            m == attrs_view(renames@),
            new_attrs@.len() == i,
            forall|j: int|
                0 <= j < i ==> #[trigger] attrs_view(new_attrs@)[j] == rewrite_attr(
                    t@.attrs[j],
                    m,
                ),
            !changed ==> forall|j: int|
                0 <= j < i ==> #[trigger] attrs_view(new_attrs@)[j] == t@.attrs[j],
            changed ==> 0 <= witness < i && attrs_view(new_attrs@)[witness] != t@.attrs[witness],
        decreases t.attrs@.len() - i,
    {
        proof {
            assert(t@.attrs[i as int] == (t.attrs@[i as int].0@, t.attrs@[i as int].1@));
        }
        let ghost prev = new_attrs@;
        let ghost was_changed = changed;
        let key_is_target = bytes_eq(t.attrs[i].0.as_slice(), ("Target").as_bytes());
        let mut replaced: Option<Vec<u8>> = None;
        if key_is_target {
            replaced = lookup(renames, &t.attrs[i].1);
        }
        match replaced {
            Some(v) => {
                if !bytes_eq(v.as_slice(), t.attrs[i].1.as_slice()) && !changed {
                    changed = true;
                    proof {
                        witness = i as int;
                    }
                }
                new_attrs.push((vstd::slice::slice_to_vec(t.attrs[i].0.as_slice()), v));
            },
            None => {
                new_attrs.push(
                    (
                        vstd::slice::slice_to_vec(t.attrs[i].0.as_slice()),
                        vstd::slice::slice_to_vec(t.attrs[i].1.as_slice()),
                    ),
                );
            },
        }
        proof {
            assert forall|j: int| 0 <= j < i + 1 implies #[trigger] attrs_view(new_attrs@)[j]
                == rewrite_attr(t@.attrs[j], m) by {
                assert(attrs_view(new_attrs@)[j] == (new_attrs@[j].0@, new_attrs@[j].1@));
                if j < i {
                    assert(new_attrs@[j] == prev[j]);
                    assert(attrs_view(prev)[j] == (prev[j].0@, prev[j].1@));
                }
            }
            if !changed {
                assert forall|j: int| 0 <= j < i + 1 implies #[trigger] attrs_view(new_attrs@)[j]
                    == t@.attrs[j] by {
                    assert(attrs_view(new_attrs@)[j] == (new_attrs@[j].0@, new_attrs@[j].1@));
                    if j < i {
                        assert(new_attrs@[j] == prev[j]);
                        assert(attrs_view(prev)[j] == (prev[j].0@, prev[j].1@));
                    }
                }
            }
            if changed && was_changed {
                assert(new_attrs@[witness] == prev[witness]);
                assert(attrs_view(prev)[witness] == (prev[witness].0@, prev[witness].1@));
                assert(attrs_view(new_attrs@)[witness] == (
                    new_attrs@[witness].0@,
                    new_attrs@[witness].1@,
                ));
            }
            if changed && !was_changed {
                assert(attrs_view(new_attrs@)[witness] == (
                    new_attrs@[witness].0@,
                    new_attrs@[witness].1@,
                ));
            }
        }
        i = i + 1;
    }
    let ghost a2 = rewrite_attrs(t@.attrs, m);
    proof {
        assert forall|j: int| 0 <= j < t@.attrs.len() implies #[trigger] a2[j] == attrs_view(
            new_attrs@,
        )[j] by {}
        assert(a2 =~= attrs_view(new_attrs@));
    }
    if !changed {
        proof {
            assert(a2 =~= t@.attrs);
        }
        let c = copy_token(t);
        return c;
    }
    proof {
        assert(a2[witness] != t@.attrs[witness]);
        assert(a2 != t@.attrs);
    }
    let raw = build_elem(&t.name, &new_attrs);
    XmlToken {
        kind: TokenKind::EmptyTag,
        name: vstd::slice::slice_to_vec(t.name.as_slice()),
        attrs: new_attrs,
        raw,
    }
}

/// Copies a token.
fn copy_token(t: &XmlToken) -> (out: XmlToken)
    ensures
        out@ == t@,
{
    let mut attrs: Vec<(Vec<u8>, Vec<u8>)> = Vec::new();
    let mut i: usize = 0;
    while i < t.attrs.len()
        invariant
            i <= t.attrs@.len(),
            attrs@.len() == i,
            forall|j: int|
                0 <= j < i ==> (#[trigger] attrs@[j]).0@ == t.attrs@[j].0@ && attrs@[j].1@
                    == t.attrs@[j].1@,
        decreases t.attrs@.len() - i,
    {
        attrs.push(
            (
                vstd::slice::slice_to_vec(t.attrs[i].0.as_slice()),
                vstd::slice::slice_to_vec(t.attrs[i].1.as_slice()),
            ),
        );
        i = i + 1;
    }
    let out = XmlToken {
        kind: t.kind,
        name: vstd::slice::slice_to_vec(t.name.as_slice()),
        attrs,
        raw: vstd::slice::slice_to_vec(t.raw.as_slice()),
    };
    proof {
        assert forall|j: int| 0 <= j < t@.attrs.len() implies #[trigger] attrs_view(out.attrs@)[j]
            == t@.attrs[j] by {
            assert(attrs_view(out.attrs@)[j] == (out.attrs@[j].0@, out.attrs@[j].1@));
            assert(t@.attrs[j] == (t.attrs@[j].0@, t.attrs@[j].1@));
        }
        assert(attrs_view(out.attrs@) =~= t@.attrs);
    }
    out
}

/// Rewrites a relationship token stream against the rename pairs.
pub fn patch_rels_tokens(toks: &Vec<XmlToken>, renames: &Vec<(Vec<u8>, Vec<u8>)>) -> (out: Vec<
    XmlToken,
>)
    ensures
        toks_view(out@) == spec_patch_rels(toks_view(toks@), attrs_view(renames@)),
{
    let ghost m = attrs_view(renames@);
    let mut out: Vec<XmlToken> = Vec::new();
    let mut i: usize = 0;
    while i < toks.len()
        invariant
            i <= toks@.len(),
            m == attrs_view(renames@),
            out@.len() == i,
            forall|j: int|
                0 <= j < i ==> #[trigger] toks_view(out@)[j] == rewrite_token(toks@[j]@, m),
        decreases toks@.len() - i,
    {
        let ghost prev = out@;
        let t = rewrite_token_exec(&toks[i], renames);
        out.push(t);
        proof {
            assert forall|j: int| 0 <= j < i + 1 implies #[trigger] toks_view(out@)[j]
                == rewrite_token(toks@[j]@, m) by {
                assert(toks_view(out@)[j] == out@[j]@);
                if j < i {
                    assert(out@[j] == prev[j]);
                    assert(toks_view(prev)[j] == prev[j]@);
                }
            }
        }
        i = i + 1;
    }
    proof {
        assert forall|j: int| 0 <= j < toks@.len() implies #[trigger] toks_view(out@)[j]
            == spec_patch_rels(toks_view(toks@), m)[j] by {
            assert(toks_view(toks@)[j] == toks@[j]@);
        }
        assert(toks_view(out@) =~= spec_patch_rels(toks_view(toks@), m));
    }
    out
}

/// Patches one relationship member: parses it, substitutes renamed target
/// paths, and re-serializes it. With no renames the output bytes equal the
/// input bytes.
pub fn replace_rels(rels: &Vec<u8>, replacements: &Vec<(Vec<u8>, Vec<u8>)>) -> (r: Result<
    Vec<u8>,
    Error,
>)
    ensures
        r matches Ok(b) ==> xml_tokens_of(rels@) matches Some(t) && b@ == concat_raws(
            spec_patch_rels(t, attrs_view(replacements@)),
        ),
        r matches Ok(b) ==> (replacements@.len() == 0 ==> b@ == rels@),
        r matches Err(e) ==> xml_tokens_of(rels@) is None && e == Error::Markup,
{
    let toks = match tokenize(rels) {
        Ok(t) => t,
        Err(e) => {
            return Err(e);
        },
    };
    let ghost t0 = toks_view(toks@);
    let patched = patch_rels_tokens(&toks, replacements);
    let out = emit(&patched);
    proof {
        if replacements@.len() == 0 {
            assert(attrs_view(replacements@) =~= Seq::<(Seq<u8>, Seq<u8>)>::empty());
            lemma_rels_empty(t0, attrs_view(replacements@));
        }
    }
    Ok(out)
}

} // verus!
