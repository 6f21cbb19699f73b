use vstd::prelude::*;

pub mod content_types;
pub mod img;
pub mod package;
pub mod rels;
pub mod xml;

verus! {

use crate::img::AcceptedFormat;
use crate::package::{
    any_fatal, contains_sub, converted, datas_view, entries_view, media_datas, persisted_seq,
    read_archive, transform_package, write_archive, zip_finishable, zip_parse, zip_writable,
    Config, EntryModel,
};
use crate::xml::attrs_view;

/// The error kinds a conversion can report.
///
/// `Archive` stands for a malformed or unreadable container, `Markup` for
/// malformed XML in a content-types or relationship member, `Io` for an
/// underlying read or write failure, and `ImageCodec` for an image that could
/// not be decoded or re-encoded.
#[derive(Clone, Copy, Debug, PartialEq, Eq, Structural)]
pub enum Error {
    Archive,
    Markup,
    Io,
    ImageCodec,
}

impl Error {
    /// A short human-readable description of the error kind.
    pub fn message(&self) -> (r: &'static str)
        ensures
            *self == Error::Archive ==> r@ == "ZIP error"@,
            *self == Error::Markup ==> r@ == "XML error"@,
            *self == Error::Io ==> r@ == "IO error"@,
            *self == Error::ImageCodec ==> r@ == "image error"@,
    {
        match self {
            Error::Archive => "ZIP error",
            Error::Markup => "XML error",
            Error::Io => "IO error",
            Error::ImageCodec => "image error",
        }
    }
}

/// Converts a package: every media entry is re-encoded into the target
/// format and renamed, the content-type declarations and relationship
/// targets are patched to match, and everything else is copied verbatim.
/// Fails with an archive error exactly when the input is not a readable
/// container or the output container cannot be written, and with a markup
/// error exactly when a content-types or relationship member holds
/// malformed XML.
pub fn convert(input: &Vec<u8>, format: AcceptedFormat, config: Config) -> (r: Result<
    Vec<u8>,
    Error,
>)
    requires
        config.quality <= 100,
    ensures
        r matches Ok(b) ==> zip_parse(input@) is Some && zip_parse(b@) is Some && exists|
            mids: Seq<EntryModel>,
            rn: Seq<(Seq<u8>, Seq<u8>)>,
        |
            converted(zip_parse(input@).unwrap(), mids, rn, format, config) && persisted_seq(
                mids,
                zip_parse(b@).unwrap(),
            ),
        zip_parse(input@) is None ==> r == Result::<Vec<u8>, Error>::Err(Error::Archive),
        r == Result::<Vec<u8>, Error>::Err(Error::Markup) ==> (zip_parse(input@) matches Some(ins)
            && any_fatal(ins)),
        zip_parse(input@) is Some && any_fatal(zip_parse(input@).unwrap()) ==> r == Result::<
            Vec<u8>,
            Error,
        >::Err(Error::Markup),
        zip_parse(input@) is Some && !any_fatal(zip_parse(input@).unwrap()) ==> (r is Ok || (
        r matches Err(e) && (e == Error::Archive || e == Error::Io) && exists|
            outs: Seq<EntryModel>,
            rn: Seq<(Seq<u8>, Seq<u8>)>,
        |
            converted(zip_parse(input@).unwrap(), outs, rn, format, config) && !(zip_writable(outs)
                && zip_finishable(outs)))),
{
    let entries = match read_archive(input) {
        Ok(es) => es,
        Err(e) => {
            return Err(e);
        },
    };
    let ghost ins = entries_view(entries@);
    let p = match transform_package(&entries, format, config) {
        Ok(p) => p,
        Err(e) => {
            proof {
                assert(zip_parse(input@).unwrap() == ins);
            }
            return Err(e);
        },
    };
    let (out_entries, renames) = p;
    let ghost rn = attrs_view(renames@);
    match write_archive(&out_entries) {
        Ok(b) => {
            proof {
                assert(zip_parse(input@).unwrap() == ins);
                assert(converted(zip_parse(input@).unwrap(), entries_view(out_entries@), rn, format, config));
                assert(persisted_seq(entries_view(out_entries@), zip_parse(b@).unwrap()));
            }
            Ok(b)
        },
        Err(e) => {
            proof {
                assert(zip_parse(input@).unwrap() == ins);
                assert(converted(ins, entries_view(out_entries@), rn, format, config));
                assert(!(zip_writable(entries_view(out_entries@)) && zip_finishable(
                    entries_view(out_entries@),
                )));
            }
            Err(e)
        },
    }
}

/// Scans the archive for media entries and returns their raw bytes, in
/// archive order, without recoding anything.
pub fn get_images_data(input: &Vec<u8>) -> (r: Result<Vec<Vec<u8>>, Error>)
    ensures
        r matches Ok(imgs) ==> zip_parse(input@) is Some && datas_view(imgs@) == media_datas(
            zip_parse(input@).unwrap(),
        ),
        r matches Err(e) ==> zip_parse(input@) is None && e == Error::Archive,
{
    let entries = match read_archive(input) {
        Ok(es) => es,
        Err(e) => {
            return Err(e);
        },
    };
    let ghost s = entries_view(entries@);
    let mut images: Vec<Vec<u8>> = Vec::new();
    let mut k: usize = 0;
    proof {
        assert(s.take(0) =~= Seq::<crate::package::EntryModel>::empty());
        assert(datas_view(images@) =~= media_datas(s.take(0)));
    }
    while k < entries.len()
        invariant
            k <= entries@.len(),
            s == entries_view(entries@),
            datas_view(images@) == media_datas(s.take(k as int)),
        decreases entries@.len() - k,
    {
        let ghost prev = images@;
        proof {
            assert(s.take(k + 1).drop_last() =~= s.take(k as int));
            assert(s.take(k + 1).last() == s[k as int]);
            assert(s[k as int] == entries@[k as int]@);
        }
        if contains_sub(&entries[k].name, ("/media/").as_bytes()) {
            images.push(vstd::slice::slice_to_vec(entries[k].data.as_slice()));
        }
        proof {
            if images@ != prev {
                assert forall|j: int| 0 <= j < images@.len() implies #[trigger] datas_view(
                    images@,
                )[j] == (if j < prev.len() {
                    datas_view(prev)[j]
                } else {
                    s[k as int].data
                }) by {
                    assert(datas_view(images@)[j] == images@[j]@);
                    if j < prev.len() {
                        assert(images@[j] == prev[j]);
                        assert(datas_view(prev)[j] == prev[j]@);
                    }
                }
            }
            assert(datas_view(images@) =~= media_datas(s.take(k + 1)));
        }
        k = k + 1;
    }
    proof {
        assert(s.take(s.len() as int) =~= s);
    }
    Ok(images)
}

} // verus!
