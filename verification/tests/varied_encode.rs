use hashid_stack::variants::{HashId, HashIdB32, HashIdB64, HashIdDefault, HashIdQr};

#[test]
fn empty() {
    test_salt(b"")
}

#[test]
fn spaces() {
    test_salt(b"   ")
}

#[test]
fn ordinary() {
    test_salt(b"this is my salt")
}

#[test]
fn long() {
    test_salt(b"abcdefghijklmnopqrstuvwxyzABCDEFGHIJKLMNOPQRSTUVWXYZ1234567890`~!@#$%^&*()-_=+\\|'\";:/?.>,<{[}]");
}

#[test]
fn garbage() {
    test_salt(b"`~!@#$%^&*()-_=+\\|'\";:/?.>,<{[}]")
}

fn check<H: HashId, const SALT: usize, const N: usize>(name: &str, salt: &[u8; SALT], data: [u64; N]) {
    let hi = H::with_salt(salt);
    let enc = hi.encode(&data);
    println!("{}({}).encode: {:?}, {}", name, SALT, enc.as_str(), enc.as_str().len());
    let dec = hi.decode_fast::<N>(enc.as_str().as_bytes());
    println!("{}({}).decode: {:?} ({})", name, SALT, dec, data.len());
    assert_eq!(data, dec.expect(name), "{} didn't work?", name);
}

fn check_all<H: HashId, const SALT: usize>(name: &str, salt: &[u8; SALT]) {
    check::<H, SALT, 1>(name, salt, [1]);
    check::<H, SALT, 2>(name, salt, [1, 2]);
    check::<H, SALT, 3>(name, salt, [1, 2, 3]);
    check::<H, SALT, 4>(name, salt, [1, 2, 3, 4]);
    check::<H, SALT, 4>(name, salt, [1000, 2000, 3000, 4000]);
    check::<H, SALT, 5>(name, salt, [1024, 2048, 4096, 16384, 65535]);
    // 1..1<<25
    check::<H, SALT, 26>(name, salt, [1,2,4,8,16,32,64,128,256,512,1024,2048,4096,8192,16384,32768,65536,131072,262144,524288,1048576,2097152,4194304,8388608,16777216,33554432]);
    //1<<53 repeat 9
    check::<H, SALT, 9>(name, salt, [4503599627370496,4503599627370496,4503599627370496,4503599627370496,4503599627370496,4503599627370496,4503599627370496,4503599627370496,4503599627370496]);
    //i64::MAX repeat 7
    check::<H, SALT, 7>(name, salt, [9223372036854775807,9223372036854775807,9223372036854775807,9223372036854775807,9223372036854775807,9223372036854775807,9223372036854775807]);

    // random tests
    check::<H, SALT, 5>(name, salt, [12446646867894078354,4908001284546428738,9309420877296939278,15195939167604779550,5163634649444262478]);
    check::<H, SALT, 5>(name, salt, [5181379796382792916,6351314966946035469,7129577023501132124,4782098177175539108,9101063531486816439]);
    check::<H, SALT, 6>(name, salt, [5281073705171475060,10572695610645112184,2550522317539421180,4905622022567923489,590388389556150252,2228473606001573272]);
}

fn test_salt<const SALT: usize>(salt: &[u8; SALT]) {
    check_all::<HashIdDefault, SALT>("HashIdDefault", salt);
    check_all::<HashIdQr, SALT>("HashIdQr", salt);
    check_all::<HashIdB32, SALT>("HashIdB32", salt);
    check_all::<HashIdB64, SALT>("HashIdB64", salt);
}
