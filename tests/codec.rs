use xcm_executor::asset::Asset;
use xcm_executor::codec::{decode_program, encode_program, DecodeError};
use xcm_executor::location::{Junction, Location};
use xcm_executor::program::{Instruction, OriginKind, Program};
use xcm_executor::weight::Weight;

fn sample() -> Program {
    let mut beneficiary = Location::parachain(1, 2000);
    beneficiary.push_interior(Junction::PalletInstance(50));
    beneficiary.push_interior(Junction::GeneralIndex(u64::MAX));
    let mut p = Program::new(
        4,
        vec![
            Instruction::WithdrawAsset(Asset { id: 1, amount: u128::MAX }),
            Instruction::ReserveAssetDeposited(Asset { id: 2, amount: 3 }),
            Instruction::ReceiveTeleportedAsset(Asset { id: 3, amount: 4 }),
            Instruction::BuyExecution { fees: Asset { id: 1, amount: 50 }, weight_limit: Weight::from_parts(7, 8) },
            Instruction::DepositAsset { id: 1, beneficiary },
            Instruction::TransferAsset { asset: Asset { id: 9, amount: 1 << 70 }, beneficiary: Location::account(0, 42) },
            Instruction::Transact { origin_kind: OriginKind::Xcm, require_weight_at_most: Weight::from_parts(1, 2), call: vec![0xde, 0xad, 0xbe, 0xef] },
            Instruction::QueryResponse { query_id: 5, response: 6 },
            Instruction::ClaimAsset { assets: vec![Asset { id: 1, amount: 2 }, Asset { id: 3, amount: 4 }] },
            Instruction::ClearOrigin,
            Instruction::DescendOrigin(Junction::AccountIndex64(77)),
            Instruction::SubscribeVersion { query_id: 12 },
            Instruction::UnsubscribeVersion,
            Instruction::AliasOrigin(Location::parachain(1, 1)),
            Instruction::TransferReserveAsset {
                asset: Asset { id: 4, amount: 9 },
                dest: Location::parachain(1, 3),
                beneficiary: Location::account(0, 8),
            },
            Instruction::ReportError { query_id: 3, destination: Location::parachain(1, 2) },
        ],
    );
    p.error_handler = vec![Instruction::ClearOrigin];
    p.appendix = vec![Instruction::DescendOrigin(Junction::Parachain(u32::MAX))];
    p
}

#[test]
fn program_round_trips() {
    let p = sample();
    let bytes = encode_program(&p);
    let q = decode_program(&bytes, 4).unwrap();
    assert_eq!(encode_program(&q), bytes);
    assert_eq!(q.version, 4);
    assert_eq!(q.instructions.len(), 16);
    assert_eq!(q.error_handler.len(), 1);
    assert_eq!(q.appendix.len(), 1);
    match &q.instructions[6] {
        Instruction::Transact { origin_kind, require_weight_at_most, call } => {
            assert_eq!(*origin_kind, OriginKind::Xcm);
            assert_eq!(*require_weight_at_most, Weight::from_parts(1, 2));
            assert_eq!(call, &vec![0xde, 0xad, 0xbe, 0xef]);
        }
        _ => panic!("wrong instruction"),
    }
    match &q.instructions[0] {
        Instruction::WithdrawAsset(a) => assert_eq!(*a, Asset { id: 1, amount: u128::MAX }),
        _ => panic!("wrong instruction"),
    }
}

#[test]
fn empty_program_encoding_is_exact() {
    let p = Program::new(3, vec![]);
    let bytes = encode_program(&p);
    assert_eq!(bytes, vec![3, 0, 0, 0, 0, 0, 0, 0, 0, 0, 0, 0, 0, 0, 0, 0, 0, 0, 0, 0, 0, 0, 0, 0, 0]);
    let q = decode_program(&bytes, 3).unwrap();
    assert_eq!(q.version, 3);
    assert!(q.instructions.is_empty());
}

#[test]
fn integers_are_little_endian() {
    let p = Program::new(1, vec![Instruction::QueryResponse { query_id: 0x0102, response: 0 }]);
    let bytes = encode_program(&p);
    assert_eq!(&bytes[0..10], &[1, 1, 0, 0, 0, 0, 0, 0, 0, 7]);
    assert_eq!(&bytes[10..12], &[0x02, 0x01]);
}

#[test]
fn trailing_bytes_rejected() {
    let mut bytes = encode_program(&sample());
    bytes.push(0);
    assert_eq!(decode_program(&bytes, 4).err(), Some(DecodeError::TrailingBytes));
}

#[test]
fn truncated_input_rejected() {
    let bytes = encode_program(&sample());
    for cut in [0usize, 1, 9, 20, bytes.len() - 1] {
        assert_eq!(decode_program(&bytes[..cut].to_vec(), 4).err(), Some(DecodeError::Malformed));
    }
}

#[test]
fn unknown_tag_rejected() {
    let p = Program::new(1, vec![Instruction::ClearOrigin]);
    let mut bytes = encode_program(&p);
    bytes[9] = 16;
    assert_eq!(decode_program(&bytes, 1).err(), Some(DecodeError::Malformed));
}

#[test]
fn out_of_range_junction_rejected() {
    let p = Program::new(1, vec![Instruction::DescendOrigin(Junction::Parachain(5))]);
    let mut bytes = encode_program(&p);
    // the payload's fifth byte lies beyond any u32
    bytes[15] = 1;
    assert_eq!(decode_program(&bytes, 1).err(), Some(DecodeError::Malformed));
}

#[test]
fn other_version_rejected_at_decode() {
    let bytes = encode_program(&sample());
    assert_eq!(decode_program(&bytes, 3).err(), Some(DecodeError::UnsupportedVersion));
    assert!(decode_program(&bytes, 4).is_ok());
}
