use ccproject::encode::encode;

#[test]
fn test_encode_25() {
    let message = "CC Team is awesome!";
    let hex_string = encode(message);
    assert!(hex_string == "0x66ede8530xb3b981a10xed18e4040xa4a0026c0xd039db570x21976f0d0xed168440xfdce22bf0xd67e47ec0x2171a0600x2a1a95010x875f3f480x78347f130x886ccc430xc90f439a0x331f54900x7bbcbf030x20d731250xc555223e0x15858");
    println!("{:?}", hex_string);
}

#[test]
fn test_encode_21() {
    let message = "CC Team";
    let hex_string = encode(message);
    assert!(hex_string == "0x66d92b800x5bc76d830x121a7fa60x51c111870x3a5f3ca30x8be36a130xedb223a0xfc8e98780x33bf50de0x2e8709700x545a2d0f0xecef7ae0x461175cd0xff132a");
    println!("{:?}", hex_string);
}

use ccproject::decode::{decode, Data};

const DECODE_DATA: &str = "0x663cbc630x98f78b370xbef2db180xddd114aa0x54a0e1d70xe9a244870x1659c7170x89506acf0x4dc10b180xefdf26e0xe8e005e10x86a4fda90x15ee1b320xa0ee170e0xe461c3740x928e7f340x98698d070x239af4b60x627807440xfd89c1300x422764790xcd1ac7250xf4364a650x48eeb1570xa7946ab10x665176370x81a511290xceaf2a070xd3fdb0060xebf8889f0x9f7c49160x69e8175b";

#[test]
fn test_decode() {
    let timestamp = "1706567290739";
    let json_data: Data = decode(DECODE_DATA, timestamp);
    println!("{} {} {}", json_data.team_name, json_data.timestamp, json_data.decoded_qrcode);
}

#[test]
fn decode_reads_message_and_timestamp() {
    let data = decode(DECODE_DATA, "1706567290739");
    assert_eq!(data.team_name, "CCprojectFor3");
    assert_eq!(data.timestamp, 1706567290739u64);
    assert_eq!(data.decoded_qrcode, "Upc7Lu");
}
