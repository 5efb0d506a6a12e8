//! One loaded font binary: parse checking and character coverage.
//!
//! Coverage is a deterministic function of the font bytes and the code
//! point, named by uninterpreted spec functions that the trusted wrappers
//! tie to the outside calls. The subsetting engine and the format transcoder
//! run at the boundary: both can fail in ways observable only as a panic
//! (the subset binding unwraps a null result, the transcoder trips a
//! debug-profile assertion), so neither call can stand behind a truthful
//! trusted contract here. The verified resolver instead hands the boundary
//! an exact plan of which handles to try, in which order.

use vstd::prelude::*;

use crate::error::AppError;

verus! {

/// Whether the bytes parse as a font face (face index zero).
pub uninterp spec fn face_parseable(data: Seq<u8>) -> bool;

/// Whether the face parsed from the bytes has a glyph for the code point;
/// false when the bytes do not parse or the value is no Unicode scalar.
pub uninterp spec fn covers(data: Seq<u8>, codepoint: u32) -> bool;

/// The number of glyphs the subsetting engine sees in the bytes.
pub uninterp spec fn hb_glyph_count_of(data: Seq<u8>) -> u32;

/// Whether a value is a Unicode scalar value, the precondition for any glyph
/// to exist for it.
pub open spec fn is_unicode_scalar(codepoint: u32) -> bool {
    codepoint <= 0xD7FF || (0xE000 <= codepoint <= 0x10FFFF)
}

/// Relies on `ttf_parser::Face::parse`: whether the bytes parse as a font
/// face. The outcome depends on the bytes alone.
#[verifier::external_body]
fn face_parse_ok(data: &[u8]) -> (r: bool)
    ensures
        r == face_parseable(data@),
{
    ttf_parser::Face::parse(data, 0).is_ok()
}

/// Relies on `ttf_parser::Face::glyph_index`: whether the face parsed from
/// the bytes maps the code point to a glyph; false when the bytes do not
/// parse or the value is no Unicode scalar. Depends on its arguments alone.
#[verifier::external_body]
fn glyph_covered(data: &[u8], codepoint: u32) -> (r: bool)
    ensures
        r == covers(data@, codepoint),
        !is_unicode_scalar(codepoint) ==> !r,
{
    match (ttf_parser::Face::parse(data, 0), char::from_u32(codepoint)) {
        (Ok(face), Some(ch)) => face.glyph_index(ch).is_some(),
        _ => false,
    }
}

/// Relies on `hb_face_get_glyph_count`, through `Face::glyph_count` on a face
/// built by `Face::from_bytes`: the number of glyphs the engine sees in the
/// bytes, a function of the bytes alone.
#[verifier::external_body]
fn hb_glyph_count(data: &[u8]) -> (r: u32)
    ensures
        r == hb_glyph_count_of(data@),
{
    let face = harfbuzz_rs_now::Face::from_bytes(data, 0);
    face.glyph_count()
}

/// The code points a font's bytes cover.
pub open spec fn covered_by(data: Seq<u8>) -> spec_fn(u32) -> bool {
    |cp: u32| covers(data, cp)
}

/// The requested code points the font actually covers, in request order.
pub open spec fn available(data: Seq<u8>, codepoints: Seq<u32>) -> Seq<u32> {
    codepoints.filter(covered_by(data))
}

/// One loaded, parse-checked font binary, bound to the subsetting engine.
pub struct FontProcessor {
    font_data: Vec<u8>,
}

impl View for FontProcessor {
    type V = Seq<u8>;

    closed spec fn view(&self) -> Seq<u8> {
        self.font_data@
    }
}

impl FontProcessor {
    /// The bytes parse as a font face and the subsetting engine sees at
    /// least one glyph in them: what every pool handle guarantees, and what
    /// the engine needs to run.
    pub open spec fn wf(&self) -> bool {
        face_parseable(self@) && hb_glyph_count_of(self@) > 0
    }

    /// Takes ownership of a font binary, rejecting bytes that do not parse
    /// as a font face or that hold no glyph at all.
    pub fn new(font_data: Vec<u8>) -> (r: Result<FontProcessor, AppError>)
        ensures
            match r {
                Ok(p) => face_parseable(font_data@) && hb_glyph_count_of(font_data@) > 0 && p@
                    == font_data@ && p.wf(),
                Err(e) => (!face_parseable(font_data@) || hb_glyph_count_of(font_data@) == 0)
                    && e is EngineFailure,
            },
    {
        if face_parse_ok(font_data.as_slice()) && hb_glyph_count(font_data.as_slice()) > 0 {
            Ok(FontProcessor { font_data })
        } else {
            Err(AppError::EngineFailure)
        }
    }

    /// Whether this font has a glyph for the code point.
    pub fn contains_char(&self, codepoint: u32) -> (r: bool)
        ensures
            r == covers(self@, codepoint),
            !is_unicode_scalar(codepoint) ==> !r,
    {
        glyph_covered(self.font_data.as_slice(), codepoint)
    }

    /// The requested code points this font covers, in request order; an empty
    /// result is a valid, non-error outcome.
    pub fn get_available_chars(&self, codepoints: &[u32]) -> (r: Vec<u32>)
        ensures
            r@ == available(self@, codepoints@),
    {
        let mut out: Vec<u32> = Vec::new();
        let mut i: usize = 0;
        proof {
            reveal(Seq::filter);
            assert(codepoints@.subrange(0, 0) =~= Seq::<u32>::empty());
        }
        while i < codepoints.len()
            invariant
                i <= codepoints@.len(),
                out@ == available(self@, codepoints@.subrange(0, i as int)),
            decreases codepoints@.len() - i,
        {
            let cp = codepoints[i];
            proof {
                reveal(Seq::filter);
                assert(codepoints@.subrange(0, i + 1).drop_last() =~= codepoints@.subrange(
                    0,
                    i as int,
                ));
                assert(codepoints@.subrange(0, i + 1).last() == codepoints@[i as int]);
            }
            if self.contains_char(cp) {
                out.push(cp);
                proof {
                    assert(covered_by(self@)(codepoints@[i as int]));
                }
            } else {
                proof {
                    assert(!covered_by(self@)(codepoints@[i as int]));
                }
            }
            i = i + 1;
        }
        proof {
            assert(codepoints@.subrange(0, codepoints@.len() as int) =~= codepoints@);
        }
        out
    }

    /// The loaded font binary, as the boundary's subsetting engine needs it.
    pub fn data(&self) -> (r: &Vec<u8>)
        ensures
            r@ == self@,
    {
        &self.font_data
    }
}

} // verus!
