//! Validation of message bodies: the `Content-Type` a decoder accepts.
//! Decoding itself is the caller's concern; the library only decides
//! whether a request's media type fits.

use vstd::prelude::*;
use crate::input::{header_value, find_header, Input};
use crate::strutil::str_eq;

verus! {

/// The media type of a request body: its type and subtype names, and the
/// `charset` parameter where one was given.  No other parameter is
/// modelled, so two media types that differ only in such a parameter are
/// not told apart.
#[derive(Clone, Debug)]
pub struct MediaType {
    pub type_: String,
    pub subtype: String,
    pub charset: Option<String>,
}

/// What parsing a `Content-Type` value yields: the type, the subtype, and
/// the `charset` parameter, if the value parses at all.
pub uninterp spec fn parsed_media_type(s: Seq<char>) -> Option<(Seq<char>, Seq<char>,
    Option<Seq<char>>)>;

/// Relies on mime::Mime parsing (`str::parse`), `type_`, `subtype` and
/// `get_param`: the parsed type, subtype and charset of the value.
#[verifier::external_body]
fn parse_media_type(s: &str) -> (r: Option<MediaType>)
    ensures
        match r {
            Some(m) => parsed_media_type(s@)
                == Some((m.type_@, m.subtype@, match m.charset {
                    Some(ref c) => Some(c@),
                    None => None::<Seq<char>>,
                })),
            None => parsed_media_type(s@) is None,
        },
{
    match s.parse::<mime::Mime>() {
        Ok(m) => Some(MediaType {
            type_: m.type_().as_str().to_string(),
            subtype: m.subtype().as_str().to_string(),
            charset: m.get_param("charset").map(|n| n.as_str().to_string()),
        }),
        Err(_) => None,
    }
}

/// A failure to extract a message body.
#[derive(Clone, Debug)]
pub enum ExtractBodyError {
    /// The header field `Content-Type` is missing.
    MissingContentType,
    /// The header field `Content-Type` is not the expected value.
    UnexpectedContentType { expected: String },
    /// The header field `Content-Type` is not a valid media type.
    InvalidMime,
    /// The `charset` in `Content-Type` must equal `utf-8`.
    NotUtf8Charset,
    /// The content of the message body is invalid.
    InvalidContent { cause: String },
}

impl ExtractBodyError {
    /// The model of the error: its kind, parameter texts erased to views.
    pub open spec fn model(self) -> ErrSpec {
        match self {
            ExtractBodyError::MissingContentType => ErrSpec::MissingContentType,
            ExtractBodyError::UnexpectedContentType { expected } => {
                ErrSpec::UnexpectedContentType(expected@)
            },
            ExtractBodyError::InvalidMime => ErrSpec::InvalidMime,
            ExtractBodyError::NotUtf8Charset => ErrSpec::NotUtf8Charset,
            ExtractBodyError::InvalidContent { cause } => ErrSpec::InvalidContent(cause@),
        }
    }

    /// Every body-extraction failure is the client's: it maps to 400.
    pub fn status(&self) -> (r: u16)
        ensures
            r == 400,
    {
        400
    }
}

/// The mathematical model of an extraction failure.
pub enum ErrSpec {
    MissingContentType,
    UnexpectedContentType(Seq<char>),
    InvalidMime,
    NotUtf8Charset,
    InvalidContent(Seq<char>),
}

/// The model of an optional media type.
pub open spec fn mt_model(m: Option<MediaType>) -> Option<(Seq<char>, Seq<char>,
    Option<Seq<char>>)> {
    match m {
        Some(m) => Some((m.type_@, m.subtype@, match m.charset {
            Some(c) => Some(c@),
            None => None::<Seq<char>>,
        })),
        None => None,
    }
}

/// A decoder decides which media types it accepts.
pub trait Decoder: Sized {
    /// Which outcome the decoder gives an optional media type.
    spec fn validate_spec(m: Option<(Seq<char>, Seq<char>, Option<Seq<char>>)>)
        -> Result<(), ErrSpec>;

    /// Decides the result.
    fn validate_mime(&self, mime: Option<&MediaType>) -> (r: Result<(), ExtractBodyError>)
        ensures
            match r {
                Ok(()) => Self::validate_spec(match mime {
                    Some(m) => mt_model(Some(*m)),
                    None => None,
                }) is Ok,
                Err(e) => Self::validate_spec(match mime {
                    Some(m) => mt_model(Some(*m)),
                    None => None,
                }) == Err::<(), ErrSpec>(e.model()),
            },
    ;
}

/// Accepts a missing `Content-Type`, or `text/plain` whose charset, if
/// any, is `utf-8`.
#[derive(Debug)]
pub struct PlainTextDecoder;

impl Decoder for PlainTextDecoder {
    open spec fn validate_spec(m: Option<(Seq<char>, Seq<char>, Option<Seq<char>>)>)
        -> Result<(), ErrSpec> {
        match m {
            None => Ok(()),
            Some(t) => {
                if t.0 != "text"@ || t.1 != "plain"@ {
                    Err(ErrSpec::UnexpectedContentType("text/plain"@))
                } else {
                    match t.2 {
                        Some(c) => if c != "utf-8"@ {
                            Err(ErrSpec::NotUtf8Charset)
                        } else {
                            Ok(())
                        },
                        None => Ok(()),
                    }
                }
            },
        }
    }

    fn validate_mime(&self, mime: Option<&MediaType>) -> (r: Result<(), ExtractBodyError>) {
        match mime {
            None => Ok(()),
            Some(m) => {
                if !str_eq(m.type_.as_str(), "text") || !str_eq(m.subtype.as_str(), "plain") {
                    return Err(ExtractBodyError::UnexpectedContentType {
                        expected: String::from_str("text/plain"),
                    });
                }
                match &m.charset {
                    Some(c) => {
                        if !str_eq(c.as_str(), "utf-8") {
                            return Err(ExtractBodyError::NotUtf8Charset);
                        }
                        Ok(())
                    },
                    None => Ok(()),
                }
            },
        }
    }
}

/// Accepts exactly `application/json` with no charset parameter.
#[derive(Debug)]
pub struct JsonDecoder;

impl Decoder for JsonDecoder {
    open spec fn validate_spec(m: Option<(Seq<char>, Seq<char>, Option<Seq<char>>)>)
        -> Result<(), ErrSpec> {
        match m {
            None => Err(ErrSpec::MissingContentType),
            Some(t) => {
                if t.0 == "application"@ && t.1 == "json"@ && t.2 is None {
                    Ok(())
                } else {
                    Err(ErrSpec::UnexpectedContentType("application/json"@))
                }
            },
        }
    }

    fn validate_mime(&self, mime: Option<&MediaType>) -> (r: Result<(), ExtractBodyError>) {
        match mime {
            None => Err(ExtractBodyError::MissingContentType),
            Some(m) => {
                if str_eq(m.type_.as_str(), "application")
                    && str_eq(m.subtype.as_str(), "json") && m.charset.is_none() {
                    Ok(())
                } else {
                    Err(ExtractBodyError::UnexpectedContentType {
                        expected: String::from_str("application/json"),
                    })
                }
            },
        }
    }
}

/// Accepts exactly `application/x-www-form-urlencoded` with no charset
/// parameter.
#[derive(Debug)]
pub struct UrlencodedDecoder;

impl Decoder for UrlencodedDecoder {
    open spec fn validate_spec(m: Option<(Seq<char>, Seq<char>, Option<Seq<char>>)>)
        -> Result<(), ErrSpec> {
        match m {
            None => Err(ErrSpec::MissingContentType),
            Some(t) => {
                if t.0 == "application"@ && t.1 == "x-www-form-urlencoded"@ && t.2 is None {
                    Ok(())
                } else {
                    Err(ErrSpec::UnexpectedContentType("application/x-www-form-urlencoded"@))
                }
            },
        }
    }

    fn validate_mime(&self, mime: Option<&MediaType>) -> (r: Result<(), ExtractBodyError>) {
        match mime {
            None => Err(ExtractBodyError::MissingContentType),
            Some(m) => {
                if str_eq(m.type_.as_str(), "application")
                    && str_eq(m.subtype.as_str(), "x-www-form-urlencoded")
                    && m.charset.is_none() {
                    Ok(())
                } else {
                    Err(ExtractBodyError::UnexpectedContentType {
                        expected: String::from_str("application/x-www-form-urlencoded"),
                    })
                }
            },
        }
    }
}

/// The parsed `Content-Type` of the request: absent when the header is
/// absent; an error when the header does not parse.
pub fn content_type(input: &Input) -> (r: Result<Option<MediaType>, ExtractBodyError>)
    ensures
        match header_value(
            input.headers@.map_values(|h: (String, String)| (h.0@, h.1@)),
            "content-type"@,
        ) {
            None => r matches Ok(m) && m is None,
            Some(v) => match r {
                Ok(m) => m is Some && parsed_media_type(v) == mt_model(m),
                Err(e) => e.model() == ErrSpec::InvalidMime && parsed_media_type(v) is None,
            },
        },
{
    match find_header(&input.headers, "content-type") {
        None => Ok(None),
        Some(v) => {
            match parse_media_type(v.as_str()) {
                Some(m) => Ok(Some(m)),
                None => Err(ExtractBodyError::InvalidMime),
            }
        },
    }
}

/// An extractor for a message body decoded by `D`; the preflight step
/// validates the request's media type before the body is read.
#[derive(Debug)]
pub struct Body<D: Decoder> {
    pub decoder: D,
}

impl<D: Decoder> Body<D> {
    /// A body extractor around the given decoder.
    pub fn new(decoder: D) -> (r: Body<D>)
        ensures
            r.decoder == decoder,
    {
        Body { decoder }
    }

    /// Validates the request's `Content-Type` against the decoder: an
    /// unparsable header fails as an invalid media type, and otherwise the
    /// decoder's own decision is returned unchanged.
    pub fn preflight(&self, input: &Input) -> (r: Result<(), ExtractBodyError>)
        ensures
            ({
                let h = header_value(
                    input.headers@.map_values(|hd: (String, String)| (hd.0@, hd.1@)),
                    "content-type"@,
                );
                match h {
                    None => match r {
                        Ok(()) => D::validate_spec(None) is Ok,
                        Err(e) => D::validate_spec(None) == Err::<(), ErrSpec>(e.model()),
                    },
                    Some(v) => match parsed_media_type(v) {
                        None => r matches Err(e) && e.model() == ErrSpec::InvalidMime,
                        Some(mt) => match r {
                            Ok(()) => D::validate_spec(Some(mt)) is Ok,
                            Err(e) => D::validate_spec(Some(mt))
                                == Err::<(), ErrSpec>(e.model()),
                        },
                    },
                }
            }),
    {
        let mime = match content_type(input) {
            Ok(m) => m,
            Err(e) => {
                return Err(e);
            },
        };
        match &mime {
            Some(m) => self.decoder.validate_mime(Some(m)),
            None => self.decoder.validate_mime(None),
        }
    }
}

} // verus!
