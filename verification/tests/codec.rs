use decpack::pack;
use decpack::unpack;
use decpack::unzip_u8;
use decpack::zip_u8;
use decpack::Packer;
use rust_decimal::prelude::FromPrimitive;
use rust_decimal::Decimal;
use std::str::FromStr;

#[test]
fn zipper() {
    for d in [
        Decimal::from_str("0.866089137820393").unwrap(),
        Decimal::from_str("11.866089137820393").unwrap(),
        Decimal::from_str("-111.866089137820393").unwrap(),
        Decimal::from_str("0.0").unwrap(),
        Decimal::from_str("1.0").unwrap(),
        Decimal::from_str("-1.0").unwrap(),
        Decimal::MAX,
        Decimal::MIN,
    ] {
        let z = zip_u8(d.serialize());
        assert_eq!(d, Decimal::deserialize(unzip_u8(z)));
    }
}

#[test]
fn random_values() {
    let mut values = Vec::new();
    for _ in 0..257 {
        let mut v: f64 = rand::random();
        if rand::random() {
            v -= 1.;
        }
        let d = Decimal::from_f64(v).unwrap();
        values.push(d);
    }
    let unload = unpack(&pack(&values[..])).unwrap();
    assert_eq!(values.len(), unload.len());
    for (a, b) in unload.iter().zip(values.iter()) {
        assert_eq!(a, b)
    }
}

#[test]
fn pack_values() {
    let mut packer = Packer::new();
    packer.with_trim(true);
    for _ in 0..65 {
        packer.load("8874.85000000").unwrap();
        packer.load("8875.14000000").unwrap();
        packer.load("8874.99000000").unwrap();
        packer.load("8874.98000000").unwrap();
    }

    let expected_bits: [u8; 4] = [0, 7, 0, 0];
    let expected_heads: [u32; 4] = [512, 887485, 0, 0];
    let expected_vals: [Vec<u8>; 4] = [
        [].to_vec(),
        [
            231, 243, 249, 124, 145, 72, 36, 18, 129, 64, 32, 16, 247, 251, 253, 126, 231, 243,
            249, 124, 145, 72, 36, 18, 129, 64, 32, 16, 247, 251, 253, 126, 62, 159, 207, 231, 137,
            68, 34, 145, 8, 4, 2, 129, 191, 223, 239, 247, 62, 159, 207, 231, 137, 68, 34, 145, 8,
            4, 2, 129, 191, 223, 239, 247, 243, 249, 124, 62, 72, 36, 18, 137, 64, 32, 16, 8, 251,
            253, 126, 191, 243, 249, 124, 62, 72, 36, 18, 137, 64, 32, 16, 8, 251, 253, 126, 191,
            159, 207, 231, 243, 68, 34, 145, 72, 4, 2, 129, 64, 223, 239, 247, 251, 159, 207, 231,
            243, 68, 34, 145, 72, 4, 2, 129, 64, 223, 239, 247, 251, 249, 124, 62, 159, 36, 18,
            137, 68, 32, 16, 8, 4, 253, 126, 191, 223, 249, 124, 62, 159, 36, 18, 137, 68, 32, 16,
            8, 4, 253, 126, 191, 223, 207, 231, 243, 249, 34, 145, 72, 36, 2, 129, 64, 32, 239,
            247, 251, 253, 207, 231, 243, 249, 34, 145, 72, 36, 2, 129, 64, 32, 239, 247, 251, 253,
            124, 62, 159, 207, 18, 137, 68, 34, 16, 8, 4, 2, 126, 191, 223, 239, 124, 62, 159, 207,
            18, 137, 68, 34, 16, 8, 4, 2, 126, 191, 223, 239,
        ]
        .to_vec(),
        [].to_vec(),
        [].to_vec(),
    ];
    for i in 0..4 {
        let lane = packer.packed().lane(i);
        assert_eq!(lane.len(), 1);
        assert_eq!(lane.get(0).unwrap().bits(), expected_bits[i]);
        assert_eq!(lane.get(0).unwrap().head(), expected_heads[i]);
        assert_eq!(lane.get(0).unwrap().vals(), &expected_vals[i]);
    }
    let unload = packer.unload();
    assert_eq!(unload.len(), 257);
    assert_eq!(unload[0], Decimal::from_str("8874.85").unwrap());
    assert_eq!(unload[1], Decimal::from_str("8875.14").unwrap());
    assert_eq!(unload[2], Decimal::from_str("8874.99").unwrap());
    assert_eq!(unload[3], Decimal::from_str("8874.98").unwrap());
}
