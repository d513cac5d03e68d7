use gattify::winrt::engine::{busy, cancelled, decode, disconnected, invalid_argument, stopped, timeout};
use gattify::ErrorCode;

#[test]
fn engine_errors_carry_their_codes() {
    assert_eq!(timeout().code, ErrorCode::Timeout);
    assert_eq!(timeout().message, "the deadline passed");
    assert_eq!(cancelled().code, ErrorCode::Cancelled);
    assert_eq!(disconnected("gone").code, ErrorCode::Disconnected);
    assert_eq!(invalid_argument("bad").message, "bad");
    assert_eq!(busy("later").code, ErrorCode::Busy);
    assert_eq!(stopped().code, ErrorCode::Unavailable);
}

#[test]
fn command_values_decode_from_base64() {
    assert_eq!(decode("AAEC").unwrap(), vec![0, 1, 2]);
    let error = decode("%%").unwrap_err();
    assert_eq!(error.code, ErrorCode::InvalidArgument);
    assert_eq!(error.message, "valueBase64 is not valid base64");
}
