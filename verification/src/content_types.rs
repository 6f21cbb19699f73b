//! Streaming rewrite of the package-wide content-types member.
//!
//! Every token passes through unchanged; immediately before a closing
//! `Types` tag, if no declaration for the target extension has been seen so
//! far, one synthesized self-closing declaration element is injected.

use vstd::prelude::*;
use vstd::string::*;

use crate::img::{content_type_bytes, decl_bytes, ext_bytes, AcceptedFormat};
use crate::xml::{
    bytes_eq, concat_raws, emit, tokenize, toks_view, xml_tokens_of, TokenKind, TokenModel,
    XmlToken,
};
use crate::Error;

verus! {

/// Whether a token declares a content type for the given extension.
pub open spec fn is_decl_for(t: TokenModel, ext: Seq<u8>) -> bool {
    (t.kind == TokenKind::StartTag || t.kind == TokenKind::EmptyTag) && t.name
        == "Default".spec_bytes() && exists|i: int|
        0 <= i < t.attrs.len() && #[trigger] attr_declares(t.attrs, i, ext)
}

/// Whether the attribute at index `i` is `Extension="ext"`.
pub open spec fn attr_declares(attrs: Seq<(Seq<u8>, Seq<u8>)>, i: int, ext: Seq<u8>) -> bool {
    attrs[i] == ("Extension".spec_bytes(), ext)
}

/// Whether some token of the sequence declares the extension.
pub open spec fn has_decl(toks: Seq<TokenModel>, ext: Seq<u8>) -> bool {
    exists|i: int| 0 <= i < toks.len() && is_decl_for(#[trigger] toks[i], ext)
}

/// Whether a token is the closing tag of the root `Types` element.
pub open spec fn is_types_end(t: TokenModel) -> bool {
    t.kind == TokenKind::EndTag && t.name == "Types".spec_bytes()
}

/// The synthesized declaration token for a format.
pub open spec fn decl_token(f: AcceptedFormat) -> TokenModel {
    TokenModel {
        kind: TokenKind::EmptyTag,
        name: "Default".spec_bytes(),
        attrs: seq![
            ("Extension".spec_bytes(), ext_bytes(f)),
            ("ContentType".spec_bytes(), content_type_bytes(f)),
        ],
        raw: decl_bytes(f),
    }
}

/// The patched token sequence: tokens pass through unchanged, and before any
/// closing `Types` tag reached while no declaration for the format's
/// extension has been seen, the synthesized declaration is inserted.
pub open spec fn spec_patch_ct(toks: Seq<TokenModel>, f: AcceptedFormat, seen: bool) -> Seq<
    TokenModel,
>
    decreases toks.len(),
{
    if toks.len() == 0 {
        Seq::empty()
    } else {
        let t = toks[0];
        let emitted = if is_types_end(t) && !seen {
            seq![decl_token(f), t]
        } else {
            seq![t]
        };
        emitted + spec_patch_ct(toks.skip(1), f, seen || is_decl_for(t, ext_bytes(f)))
    }
}

/// Whether patching would inject a declaration: some closing `Types` tag is
/// not preceded by a declaration for the format's extension.
pub open spec fn ct_injects(toks: Seq<TokenModel>, f: AcceptedFormat) -> bool {
    exists|i: int|
        0 <= i < toks.len() && is_types_end(#[trigger] toks[i]) && !has_decl(
            toks.take(i),
            ext_bytes(f),
        )
}

/// When no injection is called for, patching is the identity: an already
/// declared package passes through token for token.
pub proof fn lemma_patch_ct_identity(toks: Seq<TokenModel>, f: AcceptedFormat, seen: bool)
    requires
        forall|i: int|
            0 <= i < toks.len() && is_types_end(#[trigger] toks[i]) ==> seen || has_decl(
                toks.take(i),
                ext_bytes(f),
            ),
    ensures
        spec_patch_ct(toks, f, seen) == toks,
    decreases toks.len(),
{
    if toks.len() > 0 {
        let t = toks[0];
        let ext = ext_bytes(f);
        if is_types_end(t) {
            assert(toks.take(0) =~= Seq::<TokenModel>::empty());
            assert(seen);
        }
        let seen2 = seen || is_decl_for(t, ext);
        assert forall|i: int|
            0 <= i < toks.skip(1).len() && is_types_end(#[trigger] toks.skip(1)[i]) implies seen2
            || has_decl(toks.skip(1).take(i), ext) by {
            assert(toks.skip(1)[i] == toks[i + 1]);
            if !seen2 {
                assert(has_decl(toks.take(i + 1), ext));
                let j = choose|j: int|
                    0 <= j < toks.take(i + 1).len() && is_decl_for(
                        #[trigger] toks.take(i + 1)[j],
                        ext,
                    );
                if j == 0 {
                    assert(is_decl_for(t, ext));
                } else {
                    assert(toks.skip(1).take(i)[j - 1] == toks[j]);
                    assert(has_decl(toks.skip(1).take(i), ext));
                }
            }
        }
        lemma_patch_ct_identity(toks.skip(1), f, seen2);
        assert(spec_patch_ct(toks, f, seen) =~= toks);
    } else {
        assert(spec_patch_ct(toks, f, seen) =~= toks);
    }
}

/// After patching, if the input has a closing `Types` tag and no declaration
/// was seen before the pass, the output contains a declaration for the
/// format's extension.
pub proof fn lemma_patch_ct_declares(toks: Seq<TokenModel>, f: AcceptedFormat, seen: bool)
    requires
        exists|i: int| 0 <= i < toks.len() && is_types_end(#[trigger] toks[i]),
        !seen,
    ensures
        has_decl(spec_patch_ct(toks, f, seen), ext_bytes(f)),
    decreases toks.len(),
{
    let ext = ext_bytes(f);
    let t = toks[0];
    let out = spec_patch_ct(toks, f, seen);
    let emitted = if is_types_end(t) && !seen {
        seq![decl_token(f), t]
    } else {
        seq![t]
    };
    if is_types_end(t) {
        assert(out[0] == decl_token(f));
        assert(attr_declares(decl_token(f).attrs, 0, ext));
        assert(is_decl_for(decl_token(f), ext));
    } else if is_decl_for(t, ext) {
        assert(out[0] == t);
        assert(is_decl_for(out[0], ext));
    } else {
        let i = choose|i: int| 0 <= i < toks.len() && is_types_end(#[trigger] toks[i]);
        assert(toks.skip(1)[i - 1] == toks[i]);
        lemma_patch_ct_declares(toks.skip(1), f, false);
        let sub = spec_patch_ct(toks.skip(1), f, false);
        let j = choose|j: int| 0 <= j < sub.len() && is_decl_for(#[trigger] sub[j], ext);
        assert(out[j + 1] == sub[j]);
    }
}

/// Every closing `Types` tag of a patched stream is preceded by a
/// declaration for the format's extension.
pub proof fn lemma_patch_ct_covered(toks: Seq<TokenModel>, f: AcceptedFormat, seen: bool)
    ensures
        forall|i: int|
            0 <= i < spec_patch_ct(toks, f, seen).len() && is_types_end(
                #[trigger] spec_patch_ct(toks, f, seen)[i],
            ) ==> seen || has_decl(spec_patch_ct(toks, f, seen).take(i), ext_bytes(f)),
    decreases toks.len(),
{
    let ext = ext_bytes(f);
    let out = spec_patch_ct(toks, f, seen);
    if toks.len() > 0 {
        let t = toks[0];
        let seen2 = seen || is_decl_for(t, ext);
        let emitted = if is_types_end(t) && !seen {
            seq![decl_token(f), t]
        } else {
            seq![t]
        };
        let sub = spec_patch_ct(toks.skip(1), f, seen2);
        lemma_patch_ct_covered(toks.skip(1), f, seen2);
        assert forall|i: int|
            0 <= i < out.len() && is_types_end(#[trigger] out[i]) implies seen || has_decl(
            out.take(i),
            ext,
        ) by {
            if !seen {
                if i < emitted.len() {
                    if is_types_end(t) {
                        if i == 1 {
                            assert(out.take(1)[0] == decl_token(f));
                            assert(attr_declares(decl_token(f).attrs, 0, ext));
                            assert(is_decl_for(decl_token(f), ext));
                            assert(has_decl(out.take(1), ext));
                        } else {
                            assert(out[0] == decl_token(f));
                            assert(!is_types_end(out[0]));
                        }
                    } else {
                        assert(out[0] == t);
                        assert(!is_types_end(out[i]));
                    }
                } else {
                    let j = i - emitted.len();
                    assert(out[i] == sub[j]);
                    if is_decl_for(t, ext) {
                        assert(out.take(i)[emitted.len() - 1] == t);
                        assert(has_decl(out.take(i), ext));
                    } else {
                        assert(seen2 == false);
                        assert(has_decl(sub.take(j), ext));
                        let k = choose|k: int|
                            0 <= k < sub.take(j).len() && is_decl_for(
                                #[trigger] sub.take(j)[k],
                                ext,
                            );
                        assert(out.take(i)[emitted.len() + k] == sub[k]);
                        assert(has_decl(out.take(i), ext));
                    }
                }
            }
        }
    }
}

/// Patching is idempotent on tokens: patching an already patched stream
/// changes nothing, so a second conversion injects no further declaration.
pub proof fn lemma_patch_ct_idempotent(toks: Seq<TokenModel>, f: AcceptedFormat)
    ensures
        spec_patch_ct(spec_patch_ct(toks, f, false), f, false) == spec_patch_ct(toks, f, false),
{
    let out = spec_patch_ct(toks, f, false);
    lemma_patch_ct_covered(toks, f, false);
    lemma_patch_ct_identity(out, f, false);
}

/// Builds the synthesized declaration element for a format.
fn mk_decl_token(f: AcceptedFormat) -> (t: XmlToken)
    ensures
        t@ == decl_token(f),
{
    let mut attrs: Vec<(Vec<u8>, Vec<u8>)> = Vec::new();
    attrs.push(
        (vstd::slice::slice_to_vec(("Extension").as_bytes()), f.extension_bytes()),
    );
    attrs.push(
        (
            vstd::slice::slice_to_vec(("ContentType").as_bytes()),
            vstd::slice::slice_to_vec(f.content_type().as_bytes()),
        ),
    );
    let t = XmlToken {
        kind: TokenKind::EmptyTag,
        name: vstd::slice::slice_to_vec(("Default").as_bytes()),
        attrs,
        raw: f.content_type_decl_bytes(),
    };
    proof {
        assert(t@.attrs =~= decl_token(f).attrs);
    }
    t
}

/// Whether this token declares a content type for the extension.
fn token_is_decl(t: &XmlToken, ext: &Vec<u8>) -> (r: bool)
    ensures
        r == is_decl_for(t@, ext@),
{
    let kind_ok = match t.kind {
        TokenKind::StartTag => true,
        TokenKind::EmptyTag => true,
        _ => false,
    };
    if !kind_ok {
        return false;
    }
    if !bytes_eq(t.name.as_slice(), ("Default").as_bytes()) {
        return false;
    }
    let mut i: usize = 0;
    while i < t.attrs.len()
        invariant
            i <= t.attrs@.len(),
            t@.kind == TokenKind::StartTag || t@.kind == TokenKind::EmptyTag,
            t@.name == "Default".spec_bytes(),
            forall|j: int| 0 <= j < i ==> !(#[trigger] attr_declares(t@.attrs, j, ext@)),
        decreases t.attrs@.len() - i,
    {
        proof {
            assert(t@.attrs[i as int] == (t.attrs@[i as int].0@, t.attrs@[i as int].1@));
        }
        let k_ok = bytes_eq(t.attrs[i].0.as_slice(), ("Extension").as_bytes());
        let v_ok = bytes_eq(t.attrs[i].1.as_slice(), ext.as_slice());
        if k_ok && v_ok {
            proof {
                assert(t.attrs@[i as int].0@ == "Extension".spec_bytes());
                assert(t.attrs@[i as int].1@ == ext@);
                assert(t@.attrs[i as int] == ("Extension".spec_bytes(), ext@));
                assert(attr_declares(t@.attrs, i as int, ext@));
                assert((i as int) < t@.attrs.len());
                assert(t@.kind == TokenKind::StartTag || t@.kind == TokenKind::EmptyTag);
                assert(t@.name == "Default".spec_bytes());
                assert(is_decl_for(t@, ext@));
            }
            return true;
        }
        i = i + 1;
    }
    assert(t@.attrs.len() == t.attrs@.len());
    false
}

/// Rewrites the content-types token stream, injecting a declaration for the
/// format before the closing `Types` tag when none was seen.
pub fn patch_ct_tokens(toks: Vec<XmlToken>, f: AcceptedFormat) -> (out: Vec<XmlToken>)
    ensures
        toks_view(out@) == spec_patch_ct(toks_view(toks@), f, false),
{
    let ghost all = toks_view(toks@);
    let ext = f.extension_bytes();
    let mut out: Vec<XmlToken> = Vec::new();
    let mut seen = false;
    let mut i: usize = 0;
    proof {
        assert(all.skip(0) =~= all);
        assert(toks_view(out@) + spec_patch_ct(all, f, false) =~= spec_patch_ct(all, f, false));
    }
    while i < toks.len()
        invariant
            i <= toks@.len(),
            ext@ == ext_bytes(f),
            all == toks_view(toks@),
            spec_patch_ct(all, f, false) == toks_view(out@) + spec_patch_ct(
                all.skip(i as int),
                f,
                seen,
            ),
        decreases toks@.len() - i,
    {
        let ghost rest = all.skip(i as int);
        proof {
            assert(rest[0] == all[i as int]);
            assert(rest.skip(1) =~= all.skip(i + 1));
        }
        let is_end = match toks[i].kind {
            TokenKind::EndTag => bytes_eq(toks[i].name.as_slice(), ("Types").as_bytes()),
            _ => false,
        };
        let is_decl = token_is_decl(&toks[i], &ext);
        if is_end && !seen {
            out.push(mk_decl_token(f));
        }
        let t = XmlToken {
            kind: toks[i].kind,
            name: vstd::slice::slice_to_vec(toks[i].name.as_slice()),
            attrs: copy_attrs(&toks[i].attrs),
            raw: vstd::slice::slice_to_vec(toks[i].raw.as_slice()),
        };
        proof {
            assert(t@ =~= all[i as int]);
        }
        out.push(t);
        seen = seen || is_decl;
        i = i + 1;
        proof {
            assert(toks_view(out@) + spec_patch_ct(all.skip(i as int), f, seen) =~= spec_patch_ct(
                all,
                f,
                false,
            ));
        }
    }
    proof {
        assert(all.skip(all.len() as int) =~= Seq::<TokenModel>::empty());
        assert(toks_view(out@) =~= spec_patch_ct(all, f, false));
    }
    out
}

/// Copies an attribute list.
fn copy_attrs(attrs: &Vec<(Vec<u8>, Vec<u8>)>) -> (out: Vec<(Vec<u8>, Vec<u8>)>)
    ensures
        crate::xml::attrs_view(out@) == crate::xml::attrs_view(attrs@),
{
    let mut out: Vec<(Vec<u8>, Vec<u8>)> = Vec::new();
    let mut i: usize = 0;
    while i < attrs.len()
        invariant
            i <= attrs@.len(),
            out@.len() == i,
            forall|j: int|
                0 <= j < i ==> (#[trigger] out@[j]).0@ == attrs@[j].0@ && out@[j].1@
                    == attrs@[j].1@,
        decreases attrs@.len() - i,
    {
        out.push(
            (
                vstd::slice::slice_to_vec(attrs[i].0.as_slice()),
                vstd::slice::slice_to_vec(attrs[i].1.as_slice()),
            ),
        );
        i = i + 1;
    }
    proof {
        assert forall|j: int|
            0 <= j < attrs@.len() implies #[trigger] crate::xml::attrs_view(out@)[j]
            == crate::xml::attrs_view(attrs@)[j] by {
            assert(crate::xml::attrs_view(out@)[j] == (out@[j].0@, out@[j].1@));
            assert(crate::xml::attrs_view(attrs@)[j] == (attrs@[j].0@, attrs@[j].1@));
        }
        assert(crate::xml::attrs_view(out@) =~= crate::xml::attrs_view(attrs@));
    }
    out
}

/// Patches one content-types member: parses it, injects a declaration for
/// the format if none is present before the root's closing tag, and
/// re-serializes it. When the member already declares the extension
/// everywhere needed, the output bytes equal the input bytes.
pub fn patch_content_types(data: &Vec<u8>, format: AcceptedFormat) -> (r: Result<Vec<u8>, Error>)
    ensures
        r matches Ok(b) ==> xml_tokens_of(data@) matches Some(t) && b@ == concat_raws(
            spec_patch_ct(t, format, false),
        ),
        r matches Ok(b) ==> (!ct_injects(xml_tokens_of(data@).unwrap(), format) ==> b@ == data@),
        r matches Err(e) ==> xml_tokens_of(data@) is None && e == Error::Markup,
{
    let toks = match tokenize(data) {
        Ok(t) => t,
        Err(e) => {
            return Err(e);
        },
    };
    let ghost t0 = toks_view(toks@);
    let patched = patch_ct_tokens(toks, format);
    let out = emit(&patched);
    proof {
        if !ct_injects(t0, format) {
            assert forall|i: int|
                0 <= i < t0.len() && is_types_end(#[trigger] t0[i]) implies false || has_decl(
                t0.take(i),
                ext_bytes(format),
            ) by {}
            lemma_patch_ct_identity(t0, format, false);
        }
    }
    Ok(out)
}

} // verus!
