use vstd::prelude::*;

verus! {

/// Relies on `chrono::Utc::now` and `DateTime::timestamp`: the current time in
/// whole seconds since the Unix epoch. Nothing is known of the value.
#[verifier::external_body]
pub(crate) fn now_timestamp() -> (r: i64) {
    chrono::Utc::now().timestamp()
}

/// Relies on `uuid::Uuid::new_v4` and its `Display` impl: a fresh random
/// identifier, written in the 36-character hyphenated form.
#[verifier::external_body]
pub(crate) fn new_identifier() -> (r: String)
    ensures
        r@.len() == 36,
{
    uuid::Uuid::new_v4().to_string()
}

/// Relies on `rand::random`: a value drawn from the thread-local generator.
/// Nothing is known of the value.
pub assume_specification<T>[ rand::random::<T> ]() -> (r: T)
    where
        rand::distributions::Standard: rand::distributions::Distribution<T>,
;

/// The 24 bytes that bcrypt at cost 10 derives from a salt and a password.
pub uninterp spec fn bcrypt_of(salt: Seq<u8>, password: Seq<u8>) -> Seq<u8>;

/// Relies on `crypto::bcrypt::bcrypt`: at cost 10, with a 16-byte salt and a
/// password of 1 to 72 bytes, it fills the 24-byte output with a hash that
/// depends on the salt and the password alone. It asserts those lengths.
#[verifier::external_body]
pub(crate) fn bcrypt_hash(salt: &[u8; 16], password: &[u8]) -> (r: [u8; 24])
    requires
        0 < password@.len() <= 72,
    ensures
        r@ == bcrypt_of(salt@, password@),
{
    let mut hash: [u8; 24] = [0; 24];
    crypto::bcrypt::bcrypt(10, salt, password, &mut hash);
    hash
}

/// The SVG image of the QR code (error correction level L, at least 300 by
/// 300 pixels) that encodes the UTF-8 bytes of `data`.
pub uninterp spec fn qr_svg_of(data: Seq<char>) -> Seq<char>;

/// Relies on `qrcode::QrCode::with_error_correction_level` at `EcLevel::L`
/// and on its SVG renderer with `min_dimensions(300, 300)`: the image depends
/// on the data alone. It fails when the data is too long for any QR version.
#[verifier::external_body]
pub(crate) fn qr_svg(data: &str) -> (r: Option<String>)
    ensures
        r matches Some(svg) ==> svg@ == qr_svg_of(data@),
{
    match qrcode::QrCode::with_error_correction_level(data.as_bytes(), qrcode::EcLevel::L) {
        Ok(code) => Some(code.render::<qrcode::render::svg::Color>().min_dimensions(300, 300).build()),
        Err(_) => None,
    }
}

} // verus!
