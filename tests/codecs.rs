use simple_encode::{Base16, Base32, Base36, Base58, Base62, Base64, Base91, DecodeError};

#[test]
fn base16() -> Result<(), DecodeError> {
    let data = b"Hello";
    let enc = Base16::encode(data)?;
    println!("enc: {}", enc);
    let dec = Base16::decode(&enc)?;
    assert_eq!(dec, data);
    Ok(())
}

#[test]
fn base32() -> Result<(), DecodeError> {
    let data = b"Hello";
    let enc = Base32::encode(data)?;
    println!("enc: {}", enc);
    let dec = Base32::decode(&enc)?;
    assert_eq!(dec, data);
    Ok(())
}

#[test]
fn base36() -> Result<(), DecodeError> {
    let data = b"Hello";
    let enc = Base36::encode(data)?;
    println!("enc: {}", enc);
    let dec = Base36::decode(&enc)?;
    assert_eq!(dec, data);
    Ok(())
}

#[test]
fn base58() -> Result<(), DecodeError> {
    let data = b"Hello";
    let enc = Base58::encode(data)?;
    println!("enc: {}", enc);
    let dec = Base58::decode(&enc)?;
    assert_eq!(dec, data);
    Ok(())
}

#[test]
fn base62() -> Result<(), DecodeError> {
    let data = b"Hello";
    let enc = Base62::encode(data)?;
    println!("enc: {}", enc);
    let dec = Base62::decode(&enc)?;
    assert_eq!(dec, data);
    Ok(())
}

#[test]
fn base64() -> Result<(), DecodeError> {
    let data = b"Hello";
    let enc = Base64::encode(data)?;
    println!("enc: {}", enc);
    let dec = Base64::decode(&enc)?;
    assert_eq!(dec, data);
    Ok(())
}

#[test]
fn base91() -> Result<(), DecodeError> {
    let data = b"Hello";
    let enc = Base91::encode(data)?;
    println!("enc: {}", enc);
    let dec = Base91::decode(&enc)?;
    assert_eq!(dec, data);
    Ok(())
}
