//! Errors of the library, and what they say about the errors of `hound` and
//! `ndarray` that caused them.

use vstd::prelude::*;
use vstd::string::*;

verus! {

/// The error type of `hound`.
#[verifier::external_type_specification]
#[verifier::external_body]
pub struct ExHoundError(hound::Error);

/// The error type of `ndarray` for a shape that does not fit its data.
#[verifier::external_type_specification]
#[verifier::external_body]
pub struct ExShapeError(ndarray::ShapeError);

/// The variants of `hound::Error`, without what they carry.
#[derive(Clone, Copy, Debug, PartialEq, Eq, Structural)]
pub enum HoundErrorKind {
    /// The underlying reader or writer failed.
    Io,
    /// The data is not a well-formed wav file.
    Format,
    /// A sample has more bits than the type it is decoded to.
    TooWide,
    /// The number of samples is not a multiple of the number of channels.
    UnfinishedSample,
    /// The wav format is not supported.
    Unsupported,
    /// Integer samples were asked of a float file, or the other way round.
    InvalidSampleFormat,
}

/// Which variant a `hound::Error` is.
pub uninterp spec fn error_kind(e: hound::Error) -> HoundErrorKind;

/// Matches on the public variants of `hound::Error` and names the one found.
#[verifier::external_body]
fn hound_error_kind(e: &hound::Error) -> (kind: HoundErrorKind)
    ensures
        kind == error_kind(*e),
{
    match e {
        hound::Error::IoError(_) => HoundErrorKind::Io,
        hound::Error::FormatError(_) => HoundErrorKind::Format,
        hound::Error::TooWide => HoundErrorKind::TooWide,
        hound::Error::UnfinishedSample => HoundErrorKind::UnfinishedSample,
        hound::Error::Unsupported => HoundErrorKind::Unsupported,
        hound::Error::InvalidSampleFormat => HoundErrorKind::InvalidSampleFormat,
    }
}

/// What can go wrong when wav data is read or written.
#[derive(Debug)]
pub enum WavUtilsError {
    /// `hound` failed.
    HoundError(hound::Error),
    /// `hound` failed, and the message says on what.
    HoundErrorDetail { source: hound::Error, msg: String },
    /// `ndarray` could not give the samples the shape they should have.
    NdarrayShapeError(ndarray::ShapeError),
}

/// The message for a file that could not be opened.
pub open spec fn not_found(path: Seq<char>) -> Seq<char> {
    "Could not find audio file "@ + path
}

/// The message for a file that could not be opened ends with the path of that
/// file, behind the same words for every file.
pub proof fn law_message_names_the_file(path: Seq<char>, other: Seq<char>)
    ensures
        not_found(path).len() == 26 + path.len(),
        not_found(path).skip(26) == path,
        not_found(path).take(26) == not_found(other).take(26),
        not_found(path) == not_found(other) ==> path == other,
{
    reveal_strlit("Could not find audio file ");
    assert(not_found(path).skip(26) =~= path);
    assert(not_found(other).skip(26) =~= other);
    assert(not_found(path).take(26) =~= not_found(other).take(26));
}

/// The kind of an error is that of its cause in `hound`, however it is
/// wrapped, and one that `ndarray` caused has none. Errors with different
/// wrappings have different texts.
pub proof fn law_errors_keep_their_cause(e: hound::Error, msg: String, shape: ndarray::ShapeError)
    ensures
        ({
            let plain = WavUtilsError::HoundError(e);
            let detail = WavUtilsError::HoundErrorDetail { source: e, msg };
            let array = WavUtilsError::NdarrayShapeError(shape);
            &&& plain.spec_hound_kind() == Some(error_kind(e))
            &&& detail.spec_hound_kind() == plain.spec_hound_kind()
            &&& array.spec_hound_kind() is None
            &&& detail.spec_message() == plain.spec_message() + " Detail"@
            &&& plain.spec_message() != array.spec_message()
            &&& detail.spec_message() != array.spec_message()
        }),
{
    reveal_strlit("Hound Error");
    reveal_strlit("Hound Error Detail");
    reveal_strlit("Ndarray Shape Error");
    reveal_strlit(" Detail");
    assert("Hound Error Detail"@ =~= "Hound Error"@ + " Detail"@);
    assert("Hound Error"@[0] == 'H');
    assert("Hound Error Detail"@[0] == 'H');
    assert("Ndarray Shape Error"@[0] == 'N');
}

impl WavUtilsError {
    /// The kind of the `hound` error behind this one, where there is one.
    pub open spec fn spec_hound_kind(&self) -> Option<HoundErrorKind> {
        match *self {
            WavUtilsError::HoundError(e) => Some(error_kind(e)),
            WavUtilsError::HoundErrorDetail { source, msg } => Some(error_kind(source)),
            WavUtilsError::NdarrayShapeError(_) => None,
        }
    }

    /// The text that describes the error to a user.
    pub open spec fn spec_message(&self) -> Seq<char> {
        match *self {
            WavUtilsError::HoundError(_) => "Hound Error"@,
            WavUtilsError::HoundErrorDetail { .. } => "Hound Error Detail"@,
            WavUtilsError::NdarrayShapeError(_) => "Ndarray Shape Error"@,
        }
    }

    /// The kind of the `hound` error behind this one, where there is one.
    pub fn hound_kind(&self) -> (kind: Option<HoundErrorKind>)
        ensures
            kind == self.spec_hound_kind(),
    {
        match self {
            WavUtilsError::HoundError(e) => Some(hound_error_kind(e)),
            WavUtilsError::HoundErrorDetail { source, .. } => Some(hound_error_kind(source)),
            WavUtilsError::NdarrayShapeError(_) => None,
        }
    }

    /// The text that describes the error to a user.
    pub fn message(&self) -> (text: String)
        ensures
            text@ == self.spec_message(),
    {
        match self {
            WavUtilsError::HoundError(_) => String::from_str("Hound Error"),
            WavUtilsError::HoundErrorDetail { .. } => String::from_str("Hound Error Detail"),
            WavUtilsError::NdarrayShapeError(_) => String::from_str("Ndarray Shape Error"),
        }
    }

    /// The error for an audio file at `path` that `hound` could not open. Its
    /// message names the file.
    pub fn not_opened(path: &str, source: hound::Error) -> (e: WavUtilsError)
        ensures
            e matches WavUtilsError::HoundErrorDetail { source: s, msg } && s == source && msg@
                == "Could not find audio file "@ + path@,
            e matches WavUtilsError::HoundErrorDetail { source: s, msg } && msg@ == not_found(path@),
            e.spec_hound_kind() == Some(error_kind(source)),
    {
        let mut msg = String::from_str("Could not find audio file ");
        msg.append(path);
        WavUtilsError::HoundErrorDetail { source, msg }
    }
}

impl From<hound::Error> for WavUtilsError {
    fn from(e: hound::Error) -> (r: WavUtilsError) {
        WavUtilsError::HoundError(e)
    }
}

impl vstd::std_specs::convert::FromSpecImpl<hound::Error> for WavUtilsError {
    open spec fn obeys_from_spec() -> bool {
        true
    }

    open spec fn from_spec(e: hound::Error) -> WavUtilsError {
        WavUtilsError::HoundError(e)
    }
}

/// A result of `hound` as a result of the library.
pub open spec fn lifted<T>(r: Result<T, hound::Error>) -> Result<T, WavUtilsError> {
    match r {
        Ok(v) => Ok(v),
        Err(e) => Err(WavUtilsError::HoundError(e)),
    }
}

/// A result of `hound` succeeds in the library just where it does, with the
/// same value, and fails with an error of the same kind.
pub proof fn law_results_are_kept<T>(v: T, e: hound::Error)
    ensures
        lifted(Ok::<T, hound::Error>(v)) == Ok::<T, WavUtilsError>(v),
        lifted(Err::<T, hound::Error>(e)) is Err,
        lifted(Err::<T, hound::Error>(e))->Err_0.spec_hound_kind() == Some(error_kind(e)),
        lifted(Err::<T, hound::Error>(e))->Err_0 is HoundError,
{
}

/// A result of `hound` as a result of the library: a success as it is, an error
/// as the cause of [`WavUtilsError::HoundError`].
pub fn hound_result<T>(r: Result<T, hound::Error>) -> (s: Result<T, WavUtilsError>)
    ensures
        match r {
            Ok(v) => s == Ok::<T, WavUtilsError>(v),
            Err(e) => s == Err::<T, WavUtilsError>(WavUtilsError::HoundError(e)),
        },
        s == lifted(r),
{
    match r {
        Ok(v) => Ok(v),
        Err(e) => Err(WavUtilsError::from(e)),
    }
}

impl From<ndarray::ShapeError> for WavUtilsError {
    fn from(e: ndarray::ShapeError) -> (r: WavUtilsError) {
        WavUtilsError::NdarrayShapeError(e)
    }
}

impl vstd::std_specs::convert::FromSpecImpl<ndarray::ShapeError> for WavUtilsError {
    open spec fn obeys_from_spec() -> bool {
        true
    }

    open spec fn from_spec(e: ndarray::ShapeError) -> WavUtilsError {
        WavUtilsError::NdarrayShapeError(e)
    }
}

} // verus!
