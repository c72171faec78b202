use solana_falcon512::program::{
    map_falcon_error, process_instruction, process_instruction_at, AccountView,
};
use solana_falcon512::{
    Falcon512PreparedPubkey, Falcon512PreparedPubkeyAccount, Falcon512Pubkey, Falcon512Signature,
    Falcon512VerifyInstruction, ProgramError, FALCON_512_PREPARED_PUBKEY_ACCOUNT_LEN,
    FALCON_512_PREPARED_PUBKEY_ACCOUNT_VERSION, FALCON_512_PUBKEY_LEN, FALCON_512_SIGNATURE_LEN,
};

const SIG_LEN: usize = 666;
const MSG: &[u8] = b"deterministic falcon-512 verify benchmark";
const PROGRAM_ID: [u8; 32] = [7; 32];

const PUBKEY: [u8; 897] = [
    0x09, 0x50, 0x74, 0xed, 0x36, 0xfc, 0x1f, 0x0a, 0xb9, 0x0e, 0x1d, 0x00, 0xb5, 0x53, 0xc4, 0x17,
    0x7c, 0x98, 0xb2, 0x42, 0x1e, 0x6c, 0x38, 0xd8, 0x3a, 0xe6, 0x66, 0x2d, 0x72, 0x12, 0x0c, 0xcc,
    0x2b, 0x07, 0xa6, 0xf5, 0x91, 0x4d, 0x60, 0x6a, 0x72, 0x90, 0xb4, 0xa5, 0x46, 0x59, 0x3b, 0xc7,
    0x15, 0xf1, 0x54, 0x74, 0xb4, 0xb9, 0x83, 0x00, 0x9f, 0xb5, 0xdc, 0xa8, 0x63, 0xf8, 0x83, 0xc5,
    0xb2, 0xba, 0x87, 0x76, 0x11, 0xe3, 0x4e, 0x73, 0xb0, 0x3f, 0xc8, 0x72, 0x2d, 0x83, 0x60, 0xd2,
    0xbd, 0xc2, 0xb2, 0x02, 0x23, 0x3c, 0x34, 0x01, 0x04, 0x9d, 0xac, 0x91, 0x15, 0xe5, 0xfc, 0xba,
    0x6c, 0xc0, 0x12, 0x3a, 0x55, 0x44, 0x00, 0x43, 0x62, 0xb5, 0x71, 0xaa, 0x1b, 0xb5, 0x66, 0x09,
    0xb3, 0xa7, 0x52, 0xe5, 0x1b, 0xb8, 0x2a, 0xd7, 0xb5, 0x4a, 0x7e, 0xe9, 0x4c, 0x87, 0xc9, 0x34,
    0xf6, 0x9e, 0x30, 0x56, 0x42, 0xa8, 0x1f, 0xbe, 0xb6, 0x92, 0x51, 0xce, 0x61, 0x47, 0xa8, 0x2d,
    0xba, 0x42, 0xe2, 0x0e, 0x9a, 0xce, 0x3b, 0x71, 0xec, 0x9e, 0x41, 0x9a, 0x09, 0x84, 0x24, 0x2a,
    0xd5, 0x3f, 0xb9, 0xac, 0x17, 0xe9, 0x39, 0x5e, 0x6d, 0x99, 0xea, 0x49, 0xc7, 0x83, 0x94, 0x2a,
    0x41, 0xea, 0x4e, 0x4b, 0xc3, 0x4d, 0xac, 0xae, 0x92, 0xe9, 0x1b, 0xda, 0x57, 0x4c, 0x54, 0xe9,
    0x3b, 0x44, 0xb9, 0x28, 0xa5, 0x27, 0x19, 0x7b, 0x02, 0x62, 0x4b, 0x1b, 0x7c, 0xe8, 0x3b, 0x1a,
    0x37, 0x1e, 0x4e, 0x21, 0xb5, 0x1e, 0x44, 0x5e, 0xdd, 0x78, 0x94, 0x18, 0x6f, 0x12, 0x8b, 0x0f,
    0x52, 0x45, 0xa1, 0x33, 0x57, 0x93, 0x18, 0x67, 0x06, 0x15, 0x62, 0xf5, 0x2c, 0xd5, 0xc3, 0x93,
    0x10, 0x2a, 0x77, 0x3f, 0xc9, 0xba, 0x31, 0xd0, 0x51, 0x05, 0x4a, 0xcf, 0x5b, 0x7c, 0x8a, 0xde,
    0xa5, 0xf4, 0xd4, 0xf8, 0x20, 0x89, 0xb3, 0x71, 0x93, 0x9c, 0xcf, 0x64, 0x5d, 0xcf, 0x85, 0x79,
    0x59, 0x5d, 0xa0, 0xc9, 0xd3, 0x3b, 0xfc, 0xdd, 0xe6, 0xb2, 0x1c, 0x90, 0x69, 0x13, 0x4c, 0xab,
    0x87, 0x06, 0xfc, 0x74, 0xb1, 0xe9, 0x22, 0x30, 0x06, 0xd8, 0xc0, 0x57, 0x80, 0xba, 0x71, 0xd4,
    0x5a, 0xb5, 0x49, 0x4c, 0x9b, 0x74, 0x18, 0xea, 0xab, 0x5a, 0x83, 0x92, 0x63, 0xe4, 0xac, 0x94,
    0x2d, 0xab, 0x39, 0x87, 0x1c, 0xde, 0xa5, 0x3c, 0x64, 0x11, 0x98, 0xbc, 0x96, 0x90, 0x20, 0x26,
    0xf7, 0x13, 0xac, 0xd5, 0x6b, 0x6d, 0x25, 0xb3, 0x20, 0x26, 0x19, 0x08, 0xdb, 0xd9, 0xdc, 0xaf,
    0x9c, 0xe1, 0x91, 0xf3, 0x8b, 0x56, 0x73, 0xe8, 0xa7, 0x08, 0xd5, 0x81, 0x96, 0x7d, 0x80, 0xc1,
    0xf2, 0x04, 0x12, 0x21, 0x81, 0xd9, 0x8b, 0x18, 0x8a, 0x40, 0x6d, 0x4d, 0xf2, 0x84, 0x21, 0x73,
    0x85, 0x9a, 0x52, 0x5c, 0xe3, 0x12, 0xe2, 0x14, 0x63, 0x95, 0x49, 0x75, 0xe6, 0x71, 0x14, 0x17,
    0x7f, 0xea, 0x75, 0x6b, 0x81, 0x23, 0xf8, 0x3d, 0xe5, 0xae, 0x4b, 0xfa, 0x02, 0xb3, 0x95, 0xe5,
    0x2e, 0xcb, 0x50, 0x9f, 0x78, 0x11, 0x1c, 0xc2, 0xba, 0x2b, 0xd8, 0x34, 0xb0, 0xf5, 0x3d, 0xc5,
    0x22, 0x13, 0xb3, 0x60, 0xcc, 0xb8, 0xe3, 0x57, 0xad, 0x9d, 0x0c, 0xd0, 0xc0, 0xb6, 0x12, 0xa1,
    0xdc, 0xb0, 0xa0, 0xb3, 0xbb, 0x5b, 0xe7, 0x8f, 0x2b, 0x09, 0x7d, 0x52, 0x17, 0x4f, 0xd6, 0xa4,
    0xc2, 0xa2, 0x87, 0xda, 0x1b, 0x53, 0x06, 0x1c, 0x5d, 0x29, 0xfc, 0x28, 0x64, 0x3e, 0x62, 0xb8,
    0x34, 0xb2, 0xc2, 0x31, 0x72, 0x39, 0xa9, 0xc3, 0x56, 0x43, 0xee, 0x3d, 0xc2, 0x49, 0x13, 0x20,
    0x2b, 0xac, 0x54, 0xad, 0xed, 0xe3, 0x09, 0xc9, 0xd2, 0xb5, 0xb2, 0xeb, 0x52, 0x9e, 0xea, 0xc4,
    0x58, 0x01, 0xd6, 0x9a, 0x49, 0x68, 0x2d, 0x66, 0x2d, 0xb9, 0xcb, 0x40, 0x80, 0xff, 0x18, 0xd0,
    0xd8, 0x00, 0x17, 0xe2, 0xa5, 0xad, 0x59, 0xb0, 0xb3, 0x0c, 0x29, 0x27, 0x60, 0x06, 0x3b, 0xd8,
    0x4a, 0x23, 0xea, 0x6a, 0xe8, 0x79, 0x18, 0xbc, 0xa4, 0xbf, 0x21, 0xe8, 0x93, 0x54, 0x0d, 0xe6,
    0x30, 0x4e, 0x46, 0x11, 0x23, 0x3d, 0x08, 0x7c, 0x37, 0x42, 0xfc, 0xa5, 0x00, 0x65, 0x4c, 0x18,
    0xed, 0xc0, 0x24, 0xb7, 0x08, 0xfb, 0x89, 0x19, 0xe7, 0xf6, 0x98, 0x94, 0xfd, 0x53, 0xd2, 0xcf,
    0x26, 0xd5, 0xca, 0x8f, 0x0f, 0xf9, 0x18, 0xa3, 0x2a, 0xec, 0x14, 0x51, 0xe2, 0xfb, 0x45, 0x93,
    0xec, 0x9e, 0xae, 0xde, 0xd0, 0x09, 0x9b, 0x4a, 0x0b, 0x84, 0x66, 0x86, 0xf3, 0x69, 0xa2, 0x75,
    0x8f, 0x5a, 0x6a, 0xa2, 0xb3, 0x9f, 0x22, 0x23, 0x05, 0x6f, 0xd9, 0xd1, 0x09, 0xc2, 0x91, 0xca,
    0xf0, 0x97, 0x72, 0x51, 0x74, 0x44, 0x32, 0x48, 0x14, 0xe1, 0xe9, 0xa2, 0x22, 0x0c, 0x3e, 0x41,
    0xa8, 0x46, 0xb5, 0xbb, 0xee, 0x95, 0x70, 0x42, 0x22, 0x16, 0x6a, 0x0a, 0xb2, 0x33, 0x1d, 0x99,
    0xe3, 0x29, 0xba, 0xd4, 0xb5, 0xe7, 0x8a, 0x4a, 0x75, 0x22, 0x22, 0x7b, 0x6a, 0x11, 0x30, 0x02,
    0xcc, 0x9d, 0x74, 0xc1, 0x20, 0x4e, 0x14, 0x55, 0xa0, 0x85, 0xcb, 0xde, 0x91, 0x98, 0xae, 0x8f,
    0x85, 0xa6, 0x9b, 0x79, 0xbb, 0x6e, 0x11, 0x94, 0x31, 0x53, 0x5c, 0x22, 0x06, 0x5d, 0xd1, 0x94,
    0xea, 0x7b, 0x34, 0x09, 0xb2, 0x86, 0x84, 0x10, 0xb1, 0x24, 0x72, 0xff, 0xbb, 0xd5, 0x04, 0x0d,
    0x93, 0x2d, 0x0c, 0x54, 0xd8, 0xa7, 0x24, 0x5c, 0x69, 0x59, 0xa3, 0x4f, 0x2c, 0xc9, 0x33, 0xed,
    0x2e, 0x8b, 0xb8, 0xd0, 0xaa, 0x2e, 0x19, 0x4d, 0x95, 0xb7, 0xcc, 0xe2, 0x07, 0xf1, 0xf4, 0x5b,
    0x0a, 0x2d, 0x1a, 0x5b, 0xaa, 0x61, 0x42, 0xe8, 0x48, 0x87, 0xbc, 0x46, 0xb6, 0xa4, 0x15, 0xa6,
    0xaa, 0x6c, 0x95, 0x29, 0x4a, 0xbe, 0x2a, 0xc9, 0xbb, 0x6c, 0xdd, 0xd7, 0x7c, 0xd3, 0xef, 0x81,
    0xe1, 0x78, 0x02, 0x2c, 0x56, 0x25, 0xa5, 0xdd, 0xc1, 0x6b, 0x91, 0x4f, 0x64, 0xb6, 0x9c, 0x10,
    0x01, 0x8a, 0x0d, 0x0d, 0xb2, 0x45, 0x94, 0xd0, 0x13, 0x46, 0xe7, 0x48, 0xd8, 0x1c, 0x09, 0xf2,
    0x03, 0x17, 0x79, 0x66, 0x01, 0x7a, 0x60, 0x8b, 0x58, 0x10, 0x2d, 0xe7, 0x50, 0x67, 0xcc, 0x44,
    0x98, 0x45, 0x29, 0xb1, 0xd7, 0x24, 0x2b, 0x3c, 0xea, 0xd2, 0x69, 0xb7, 0x00, 0x69, 0xba, 0xfe,
    0x48, 0x34, 0x05, 0xd2, 0x01, 0x29, 0x28, 0x17, 0x5b, 0xb4, 0x29, 0xf6, 0x3d, 0xd4, 0xdc, 0x40,
    0x37, 0x83, 0x3c, 0x54, 0xa1, 0x45, 0xc7, 0xfe, 0x1c, 0xa9, 0x1a, 0xa0, 0xef, 0x17, 0xcc, 0x63,
    0x03,
];

const SIG: [u8; 666] = [
    0x39, 0x87, 0xc5, 0x2d, 0xb8, 0x33, 0x19, 0xc7, 0x63, 0x8c, 0x30, 0x6b, 0x54, 0x39, 0x8d, 0x4a,
    0xde, 0xed, 0x4c, 0x32, 0xea, 0x0a, 0x6a, 0xc7, 0xc1, 0x3c, 0x3d, 0x01, 0x57, 0x45, 0x4d, 0x38,
    0x75, 0x01, 0x2e, 0x6a, 0x5d, 0x93, 0x7e, 0x46, 0xa6, 0xf1, 0xd0, 0x6b, 0x31, 0x48, 0x6a, 0x67,
    0x28, 0xbf, 0xbe, 0xc9, 0xdb, 0xa4, 0xb2, 0x36, 0x18, 0xf9, 0x5b, 0x4e, 0x6c, 0x39, 0x51, 0x6c,
    0x2a, 0xde, 0x54, 0x9e, 0xa2, 0x69, 0x9d, 0x4d, 0x8b, 0xff, 0xce, 0xb0, 0x7b, 0xf2, 0xd2, 0x9c,
    0x01, 0x3e, 0x72, 0xf2, 0xb4, 0x49, 0xaa, 0x8a, 0xd4, 0x59, 0x17, 0xdd, 0xad, 0xdb, 0xa0, 0xcd,
    0xa5, 0x5f, 0x8b, 0xbd, 0x77, 0x4b, 0x47, 0x44, 0xb8, 0xfe, 0x6e, 0xd1, 0xa6, 0x47, 0xb1, 0x45,
    0x75, 0x88, 0x16, 0x2a, 0xc5, 0x61, 0x3f, 0x45, 0x63, 0xda, 0x9d, 0xce, 0xf9, 0xa2, 0x8d, 0xb2,
    0xe2, 0x2f, 0x1a, 0x3a, 0x1e, 0xa4, 0xfe, 0x4c, 0xa2, 0x5b, 0xa9, 0x79, 0xed, 0x4a, 0x9f, 0xae,
    0x9a, 0xfa, 0x92, 0x26, 0x18, 0x8d, 0x90, 0xec, 0x1e, 0x07, 0xd2, 0xf8, 0xc5, 0x5a, 0x50, 0xd8,
    0xa4, 0xc4, 0x11, 0xc4, 0x87, 0x92, 0xad, 0x72, 0x17, 0x1d, 0x54, 0x51, 0xda, 0x4b, 0x61, 0x56,
    0xb4, 0x41, 0xdf, 0x3c, 0xe2, 0x05, 0xa6, 0xca, 0xb2, 0x6b, 0xa6, 0x01, 0x1a, 0xf1, 0x6a, 0x94,
    0xc6, 0xce, 0x49, 0x3a, 0xdf, 0x31, 0xa5, 0x41, 0x33, 0x7b, 0xe9, 0x9a, 0x88, 0x5c, 0x83, 0x10,
    0x8f, 0xa4, 0x64, 0x26, 0x21, 0xc0, 0x4b, 0xe5, 0x30, 0x14, 0x79, 0x9c, 0xc1, 0xe1, 0x39, 0xd1,
    0xfd, 0x72, 0x06, 0x8d, 0x1a, 0xf8, 0x6e, 0xc4, 0xcf, 0x71, 0x7e, 0xd6, 0x9a, 0x3f, 0x05, 0x35,
    0x41, 0xb7, 0xce, 0x4a, 0x20, 0xb6, 0xd7, 0xb0, 0x78, 0x3b, 0xef, 0x9b, 0x45, 0x80, 0x26, 0x16,
    0x1c, 0x47, 0xe5, 0x1e, 0x54, 0xac, 0x29, 0x43, 0x5c, 0x48, 0xf1, 0xad, 0x7c, 0x34, 0x94, 0x4c,
    0xbc, 0x16, 0x48, 0xca, 0x36, 0xb3, 0x36, 0x0a, 0x7a, 0xb3, 0xf4, 0xcf, 0x19, 0xb5, 0x4a, 0x63,
    0x5a, 0xc3, 0xdb, 0x79, 0x06, 0x70, 0xc2, 0x51, 0x3d, 0x74, 0x5e, 0xd7, 0x8c, 0xe4, 0xa0, 0x9a,
    0xd8, 0x64, 0x0b, 0x33, 0x86, 0x61, 0x74, 0xb2, 0xc4, 0x2a, 0x85, 0xd6, 0x64, 0x7f, 0x70, 0x6f,
    0x64, 0x4d, 0xe0, 0x43, 0x23, 0x85, 0x19, 0xbd, 0xcb, 0xe1, 0x26, 0x6b, 0x1c, 0x4c, 0xbd, 0xa6,
    0xad, 0xe4, 0x58, 0x70, 0x54, 0x87, 0xf2, 0xb5, 0x35, 0x23, 0xb1, 0x94, 0x7e, 0x4b, 0x16, 0xcc,
    0x34, 0x5c, 0xe5, 0x87, 0x7e, 0xe1, 0x22, 0x4f, 0x33, 0xb7, 0x17, 0x72, 0x53, 0xbe, 0xf5, 0xf2,
    0x83, 0x71, 0xdd, 0x22, 0x2e, 0x24, 0x4b, 0x6f, 0x70, 0xab, 0x71, 0x36, 0x56, 0xe6, 0xc5, 0xc5,
    0xf6, 0x67, 0x8f, 0xe3, 0xa2, 0x70, 0x77, 0x26, 0x19, 0x1e, 0x61, 0x94, 0x1d, 0x35, 0xc8, 0xb3,
    0x46, 0xb0, 0x9f, 0xd2, 0x99, 0x29, 0x98, 0xe3, 0x65, 0x52, 0x2c, 0xe7, 0xf6, 0x15, 0xb6, 0xdd,
    0xe6, 0x2f, 0x0f, 0xd4, 0x75, 0x4e, 0xdf, 0x46, 0x28, 0x1a, 0x61, 0xd5, 0x14, 0xe3, 0x4b, 0x35,
    0x4c, 0x9c, 0x0d, 0x12, 0x4f, 0xff, 0x65, 0xb1, 0xeb, 0xcd, 0x03, 0x62, 0x58, 0x15, 0x0c, 0xca,
    0x2b, 0x08, 0x52, 0xe5, 0xa4, 0xa5, 0xe6, 0x5c, 0xa5, 0xd4, 0x9d, 0x91, 0x9d, 0x7e, 0xd2, 0x0f,
    0xc2, 0x5a, 0x8e, 0xdf, 0xd0, 0x64, 0xef, 0x5a, 0x7b, 0x24, 0x76, 0x1a, 0x55, 0x25, 0xce, 0x84,
    0x9c, 0x8d, 0x82, 0x04, 0x81, 0xba, 0x74, 0xec, 0xdd, 0x93, 0x14, 0x43, 0xb3, 0x0d, 0x3c, 0x6c,
    0xca, 0xf6, 0xec, 0xbd, 0x4f, 0xe5, 0x91, 0x02, 0x63, 0x67, 0x1d, 0x37, 0x8f, 0x25, 0x17, 0x6e,
    0xda, 0x8d, 0xae, 0x42, 0x29, 0xd8, 0x63, 0x61, 0x91, 0x6b, 0xbe, 0x97, 0xbd, 0x23, 0x68, 0xbe,
    0x49, 0x85, 0x7b, 0x9f, 0x42, 0x6c, 0xa0, 0x1f, 0x39, 0x51, 0xfe, 0xf5, 0xcc, 0x0d, 0x94, 0x81,
    0x10, 0x45, 0x56, 0x07, 0x99, 0x16, 0x67, 0xb3, 0x22, 0x79, 0x60, 0xb9, 0x1b, 0xc4, 0x6d, 0xe6,
    0x90, 0xe4, 0xaa, 0x3e, 0xb9, 0x32, 0xe5, 0x21, 0x9c, 0x7a, 0xe4, 0xe9, 0x5a, 0xe3, 0x8d, 0x5f,
    0x52, 0x14, 0xd2, 0xbe, 0xab, 0x24, 0xce, 0xf4, 0x0a, 0xe3, 0xca, 0x6d, 0xa4, 0x4c, 0x2a, 0x43,
    0x27, 0x63, 0xe0, 0xa4, 0x8e, 0x9d, 0x4d, 0xad, 0x8e, 0x33, 0xe3, 0xac, 0x88, 0x2d, 0x14, 0x74,
    0x66, 0xf7, 0x0c, 0xc1, 0x4b, 0x9d, 0x54, 0x6f, 0x24, 0xed, 0xa8, 0xb1, 0x13, 0x04, 0xf8, 0x4c,
    0xac, 0x8f, 0x16, 0x73, 0x07, 0xda, 0x86, 0xe8, 0xbc, 0x0d, 0xce, 0x27, 0x0b, 0x38, 0xd3, 0x96,
    0xb3, 0x39, 0xbc, 0xb2, 0x20, 0x87, 0x62, 0xb0, 0x85, 0x35, 0xb7, 0x9c, 0x31, 0x00, 0x00, 0x00,
    0x00, 0x00, 0x00, 0x00, 0x00, 0x00, 0x00, 0x00, 0x00, 0x00,
];

/// Bytes held at a chosen distance from a multiple of eight bytes.
struct Placed {
    buf: Vec<u8>,
    start: usize,
    len: usize,
}

impl Placed {
    fn bytes(&self) -> &[u8] {
        &self.buf[self.start..self.start + self.len]
    }
}

fn test_pubkey() -> Falcon512Pubkey {
    Falcon512Pubkey::from_bytes(PUBKEY)
}

fn test_account() -> [u8; FALCON_512_PREPARED_PUBKEY_ACCOUNT_LEN] {
    Falcon512PreparedPubkeyAccount::new(test_pubkey().prepare_pubkey()).to_bytes()
}

fn placed(bytes: &[u8], offset: usize) -> Placed {
    let mut buf = vec![0u8; bytes.len() + 16];
    let start = (8 - buf.as_ptr() as usize % 8) % 8 + offset;
    buf[start..start + bytes.len()].copy_from_slice(bytes);
    Placed { buf, start, len: bytes.len() }
}

fn build_ix_data(sig: [u8; SIG_LEN], msg: &[u8]) -> Vec<u8> {
    let signature = Falcon512Signature::from(sig);
    let instruction = Falcon512VerifyInstruction::new(&signature, msg);
    let mut data = vec![0u8; instruction.encoded_len()];
    instruction
        .encode_into(&mut data)
        .expect("instruction buffer should match encoded len");
    data
}

fn readonly(owner: [u8; 32], data: &[u8]) -> AccountView<'_> {
    AccountView { owner, is_writable: false, data: Ok(data) }
}

fn run(accounts: &[AccountView], data: &[u8]) -> Result<(), ProgramError> {
    process_instruction(&PROGRAM_ID, accounts, data, &test_pubkey().prepare_pubkey())
}

// ---------------------------------------------------------------------------
// Stored accounts and instruction payloads
// ---------------------------------------------------------------------------

#[test]
fn prepared_pubkey_account_rejects_wrong_version() {
    let prepared = test_pubkey().prepare_pubkey();
    let account = Falcon512PreparedPubkeyAccount::new(prepared);
    let mut bytes = account.to_bytes();
    bytes[8..12].copy_from_slice(&(FALCON_512_PREPARED_PUBKEY_ACCOUNT_VERSION + 1).to_le_bytes());

    assert!(
        Falcon512PreparedPubkeyAccount::from_bytes(bytes).is_err(),
        "wrong version must be rejected"
    );
}

#[test]
fn prepared_pubkey_account_try_from_slice_rejects_truncated_input() {
    let prepared = test_pubkey().prepare_pubkey();
    let account = Falcon512PreparedPubkeyAccount::new(prepared);
    let bytes = account.to_bytes();

    assert!(
        Falcon512PreparedPubkeyAccount::try_from_slice(&bytes[..bytes.len() - 1]).is_err(),
        "truncated input must be rejected"
    );
}

#[test]
fn prepared_pubkey_account_try_from_slice_rejects_misaligned_input() {
    let prepared = test_pubkey().prepare_pubkey();
    let account = Falcon512PreparedPubkeyAccount::new(prepared);
    let bytes = account.to_bytes();
    let mut misaligned = vec![0u8; FALCON_512_PREPARED_PUBKEY_ACCOUNT_LEN + 1];
    misaligned[1..].copy_from_slice(&bytes);

    assert!(
        Falcon512PreparedPubkeyAccount::try_from_slice(&misaligned[1..]).is_err(),
        "misaligned account bytes must be rejected"
    );
}

#[test]
fn verify_instruction_roundtrip() {
    let signature = Falcon512Signature::from_bytes([0xAB; FALCON_512_SIGNATURE_LEN]);
    let message = b"hello falcon account-backed world";
    let instruction = Falcon512VerifyInstruction::new(&signature, message);
    let mut bytes = vec![0u8; instruction.encoded_len()];

    instruction.encode_into(&mut bytes).unwrap();
    let parsed = match Falcon512VerifyInstruction::parse(&bytes) {
        Ok(parsed) => parsed,
        Err(e) => panic!("{:?}", e),
    };

    assert_eq!(parsed.signature().as_bytes(), signature.as_bytes());
    assert_eq!(parsed.message(), message);
}

#[test]
fn verify_instruction_rejects_short_input() {
    assert!(Falcon512VerifyInstruction::parse(&[0u8; FALCON_512_SIGNATURE_LEN - 1]).is_err());
}

#[test]
fn verify_instruction_rejects_wrong_output_len() {
    let signature = Falcon512Signature::from_bytes([0xCD; FALCON_512_SIGNATURE_LEN]);
    let instruction = Falcon512VerifyInstruction::new(&signature, b"msg");
    let mut out = vec![0u8; instruction.encoded_len() - 1];

    assert!(instruction.encode_into(&mut out).is_err());
}

#[test]
fn failed_encoding_leaves_the_buffer_alone() {
    let signature = Falcon512Signature::from_bytes([0xCD; FALCON_512_SIGNATURE_LEN]);
    let instruction = Falcon512VerifyInstruction::new(&signature, b"msg");
    for len in [0, 3, SIG_LEN, SIG_LEN + 2, SIG_LEN + 4] {
        let mut out = vec![0x5a; len];
        assert_eq!(
            instruction.encode_into(&mut out),
            Err(ProgramError::InvalidInstructionData)
        );
        assert_eq!(out, vec![0x5a; len]);
    }
}

#[test]
fn account_layout_is_discriminator_version_key() {
    let bytes = test_account();
    assert_eq!(bytes.len(), 1036);
    assert_eq!(&bytes[..8], b"FALCPPK1");
    assert_eq!(&bytes[8..12], &[1, 0, 0, 0]);
    assert_eq!(&bytes[12..], &test_pubkey().prepare_pubkey().as_bytes()[..]);
}

#[test]
fn account_is_read_only_where_it_is_placed() {
    let bytes = test_account();
    for offset in 0..8 {
        let buf = placed(&bytes, offset);
        let slice = buf.bytes();
        let read = Falcon512PreparedPubkeyAccount::try_from_slice(slice);
        assert_eq!(read.is_ok(), offset % 4 == 0, "offset {}", offset);
        if let Ok(account) = read {
            assert_eq!(account.to_bytes(), bytes);
        }
        let at = Falcon512PreparedPubkeyAccount::try_from_slice_at(slice, offset);
        assert_eq!(at.is_ok(), offset % 4 == 0);
    }
}

#[test]
fn account_parts_are_read_without_a_check() {
    let mut bytes = test_account();
    bytes[0] = 0;
    bytes[9] = 2;
    let account = Falcon512PreparedPubkeyAccount::from_ref(&bytes);
    assert_eq!(account.to_bytes(), bytes);
    assert!(account.prepared_pubkey() == &test_pubkey().prepare_pubkey());
    assert!(account != Falcon512PreparedPubkeyAccount::new(test_pubkey().prepare_pubkey()));
    assert_eq!(
        Falcon512PreparedPubkeyAccount::from_bytes(bytes).err(),
        Some(ProgramError::InvalidArgument)
    );
}

#[test]
fn prepared_key_is_read_only_where_it_is_placed() {
    let prepared = test_pubkey().prepare_pubkey();
    let bytes = prepared.as_bytes();
    for offset in 0..4 {
        let buf = placed(&bytes, offset);
        let slice = buf.bytes();
        let read = Falcon512PreparedPubkey::try_from_slice(slice);
        assert_eq!(read.is_ok(), offset % 2 == 0, "offset {}", offset);
        if let Ok(key) = read {
            assert!(key == prepared);
        }
        let at = Falcon512PreparedPubkey::try_from_slice_at(slice, offset);
        assert_eq!(at.is_ok(), offset % 2 == 0);
    }
    assert!(Falcon512PreparedPubkey::try_from_slice(&bytes[..1023]).is_err());
}

// ---------------------------------------------------------------------------
// Keys and signatures
// ---------------------------------------------------------------------------

#[test]
fn wire_forms_have_one_length() {
    assert!(Falcon512Pubkey::try_from(&PUBKEY[..]).is_ok());
    assert!(Falcon512Pubkey::try_from_slice(&PUBKEY[..]).is_ok());
    assert_eq!(
        Falcon512Pubkey::try_from_slice(&PUBKEY[1..]).err(),
        Some(ProgramError::InvalidArgument)
    );
    assert_eq!(
        Falcon512Pubkey::try_from(&PUBKEY[..10]).err(),
        Some(ProgramError::InvalidArgument)
    );
    assert!(Falcon512Signature::try_from(&SIG[..]).is_ok());
    assert!(Falcon512Signature::try_from_slice(&SIG[..]).is_ok());
    assert_eq!(
        Falcon512Signature::try_from_slice(&SIG[1..]).err(),
        Some(ProgramError::InvalidArgument)
    );
    assert_eq!(
        Falcon512Signature::try_from(&[][..]).err(),
        Some(ProgramError::InvalidArgument)
    );
    assert_eq!(
        Falcon512PreparedPubkey::try_from(&PUBKEY[..]).err(),
        Some(ProgramError::InvalidArgument)
    );
    assert_eq!(Falcon512Pubkey::from(PUBKEY).as_bytes(), &PUBKEY);
    assert_eq!(Falcon512Pubkey::from_ref(&PUBKEY).as_bytes(), &PUBKEY);
    assert_eq!(Falcon512Signature::from_ref(&SIG).as_bytes(), &SIG);
    assert!(Falcon512Signature::from_ref(&SIG) == Falcon512Signature::from(SIG));
    assert!(Falcon512Pubkey::from(PUBKEY) != Falcon512Pubkey::from([0; FALCON_512_PUBKEY_LEN]));
    assert!(test_pubkey().clone() == test_pubkey());
}

#[test]
fn prepared_coefficients_are_scaled_values_at_the_roots() {
    let prepared = test_pubkey().prepare_pubkey();
    let coeffs = prepared.coeffs();
    let expected = [
        (0, 4834),
        (1, 5610),
        (2, 11189),
        (3, 11540),
        (255, 6397),
        (256, 10162),
        (510, 5742),
        (511, 11811),
    ];
    for (i, value) in expected {
        assert_eq!(coeffs[i], value, "coefficient {}", i);
    }
    assert!(coeffs.iter().all(|&c| c < 12289));
}

#[test]
fn every_way_to_prepare_gives_the_same_key() {
    let prepared = test_pubkey().prepare_pubkey();
    assert!(test_pubkey().try_prepare_pubkey() == Ok(prepared.clone()));
    assert!(Falcon512PreparedPubkey::try_from(test_pubkey()) == Ok(prepared.clone()));
    assert!(Falcon512PreparedPubkey::try_from(&test_pubkey()) == Ok(prepared.clone()));
    let bytes = prepared.as_bytes();
    assert!(Falcon512PreparedPubkey::try_from(&bytes[..]) == Ok(prepared.clone()));
    assert!(Falcon512PreparedPubkey::from_bytes(bytes) == prepared);
    assert!(Falcon512PreparedPubkey::from_ref(&bytes) == prepared);
}

#[test]
fn malformed_keys_are_not_prepared() {
    let mut header = PUBKEY;
    header[0] = 0x0a;
    let mut range = PUBKEY;
    range[1] = 0xff;
    range[2] = 0xff;
    for bad in [header, range] {
        let key = Falcon512Pubkey::from_bytes(bad);
        assert!(key.try_prepare_pubkey() == Err(ProgramError::InvalidArgument));
        assert!(Falcon512PreparedPubkey::try_from(&key) == Err(ProgramError::InvalidArgument));
        assert!(!Falcon512Signature::from(SIG).verify(MSG, &key));
    }
}

#[test]
fn known_signature_verifies_both_ways() {
    let signature = Falcon512Signature::from(SIG);
    assert!(signature.verify(MSG, &test_pubkey()));
    assert!(signature.verify_with_prepared(MSG, &test_pubkey().prepare_pubkey()));
    assert!(!signature.verify(b"another message", &test_pubkey()));
    assert!(!signature.verify_with_prepared(b"another message", &test_pubkey().prepare_pubkey()));
}

#[test]
fn other_signature_headers_are_rejected() {
    let prepared = test_pubkey().prepare_pubkey();
    for header in [0x00, 0x29, 0x38, 0x3a, 0x49, 0x59, 0xff] {
        let mut sig = SIG;
        sig[0] = header;
        assert!(!Falcon512Signature::from(sig).verify(MSG, &test_pubkey()));
        assert!(!Falcon512Signature::from(sig).verify_with_prepared(MSG, &prepared));
    }
}

#[test]
fn unused_bytes_must_be_zero() {
    let prepared = test_pubkey().prepare_pubkey();
    for i in 653..SIG_LEN {
        let mut sig = SIG;
        sig[i] = 0x01;
        assert!(!Falcon512Signature::from(sig).verify_with_prepared(MSG, &prepared));
    }
}

#[test]
fn every_part_of_the_signature_counts() {
    let prepared = test_pubkey().prepare_pubkey();
    for i in (0..653).step_by(9) {
        let mut sig = SIG;
        sig[i] ^= 0x10;
        assert!(
            !Falcon512Signature::from(sig).verify_with_prepared(MSG, &prepared),
            "byte {}",
            i
        );
    }
}

#[test]
fn prepared_entries_count_modulo_q() {
    let mut coeffs = *test_pubkey().prepare_pubkey().coeffs();
    for c in coeffs.iter_mut() {
        *c += 12289;
    }
    let shifted = Falcon512PreparedPubkey::from_coeffs(coeffs);
    assert!(Falcon512Signature::from(SIG).verify_with_prepared(MSG, &shifted));
}

// ---------------------------------------------------------------------------
// The program
// ---------------------------------------------------------------------------

#[test]
fn verify_fixed_message() {
    let result = run(&[], &build_ix_data(SIG, MSG));
    assert!(!result.is_err(), "verify failed: {:?}", result);
}

#[test]
fn rejects_tampered_message() {
    let mut tampered_msg = MSG.to_vec();
    tampered_msg[0] ^= 0x01;
    let result = run(&[], &build_ix_data(SIG, &tampered_msg));
    assert!(result.is_err(), "expected failure on tampered msg, got: {:?}", result);
    assert_eq!(result, Err(ProgramError::Custom(3)));
}

#[test]
fn rejects_tampered_signature() {
    let mut tampered_sig = SIG;
    // Flip a bit inside the signature payload (past header + nonce).
    tampered_sig[100] ^= 0x01;
    let result = run(&[], &build_ix_data(tampered_sig, MSG));
    assert!(result.is_err(), "expected failure on tampered sig, got: {:?}", result);
    assert_eq!(result, Err(ProgramError::Custom(3)));
}

#[test]
fn verify_with_prepared_pubkey_account() {
    let data = placed(&test_account(), 0);
    let accounts = [readonly(PROGRAM_ID, data.bytes())];
    let result = run(&accounts, &build_ix_data(SIG, MSG));
    assert!(
        !result.is_err(),
        "verify with account-backed prepared key failed: {:?}",
        result
    );
}

#[test]
fn rejects_invalid_prepared_pubkey_account_header() {
    let mut account_data = test_account();
    account_data[0] ^= 0x01;
    let data = placed(&account_data, 0);
    let accounts = [readonly(PROGRAM_ID, data.bytes())];
    let result = run(&accounts, &build_ix_data(SIG, MSG));
    assert!(
        result.is_err(),
        "expected failure on malformed prepared-pubkey account, got: {:?}",
        result
    );
    assert_eq!(result, Err(ProgramError::InvalidArgument));
}

#[test]
fn rejects_truncated_instruction_data() {
    let result = run(&[], &vec![0u8; SIG_LEN - 1]);
    assert!(
        result.is_err(),
        "expected failure on truncated instruction payload, got: {:?}",
        result
    );
    assert_eq!(result, Err(ProgramError::InvalidInstructionData));
}

#[test]
fn rejects_prepared_pubkey_account_with_wrong_owner() {
    let data = placed(&test_account(), 0);
    let accounts = [readonly([8; 32], data.bytes())];
    let result = run(&accounts, &build_ix_data(SIG, MSG));
    assert!(
        result.is_err(),
        "expected failure on wrong-owner prepared-pubkey account, got: {:?}",
        result
    );
    assert_eq!(result, Err(ProgramError::IncorrectProgramId));
}

#[test]
fn rejects_extra_accounts() {
    let data = placed(&test_account(), 0);
    let accounts = [readonly(PROGRAM_ID, data.bytes()), readonly(PROGRAM_ID, &[])];
    let result = run(&accounts, &build_ix_data(SIG, MSG));
    assert!(result.is_err(), "expected failure on extra accounts, got: {:?}", result);
    assert_eq!(result, Err(ProgramError::InvalidArgument));
}

#[test]
fn rejects_writable_account() {
    let data = placed(&test_account(), 0);
    let accounts = [AccountView {
        owner: PROGRAM_ID,
        is_writable: true,
        data: Ok(data.bytes()),
    }];
    let result = run(&accounts, &build_ix_data(SIG, MSG));
    assert_eq!(result, Err(ProgramError::InvalidArgument));
}

#[test]
fn reports_a_failed_borrow_as_it_is() {
    for error in [ProgramError::AccountBorrowFailed, ProgramError::Immutable] {
        let accounts = [AccountView { owner: PROGRAM_ID, is_writable: false, data: Err(error) }];
        assert_eq!(run(&accounts, &build_ix_data(SIG, MSG)), Err(error));
    }
}

#[test]
fn rejects_misaligned_account() {
    let data = placed(&test_account(), 1);
    let accounts = [readonly(PROGRAM_ID, data.bytes())];
    let payload = build_ix_data(SIG, MSG);
    assert_eq!(run(&accounts, &payload), Err(ProgramError::InvalidArgument));
    let key = test_pubkey().prepare_pubkey();
    let at = |address| process_instruction_at(&PROGRAM_ID, &accounts, &payload, &key, address);
    assert_eq!(at(1028), Ok(()));
    assert_eq!(at(1030), Err(ProgramError::InvalidArgument));
}

#[test]
fn checks_come_in_order() {
    let short = vec![0u8; SIG_LEN - 1];
    let foreign = [readonly([8; 32], &[]), readonly([8; 32], &[])];
    assert_eq!(run(&foreign, &short), Err(ProgramError::InvalidInstructionData));
    let payload = build_ix_data(SIG, MSG);
    assert_eq!(run(&foreign, &payload), Err(ProgramError::InvalidArgument));
    let writable = [AccountView {
        owner: [8; 32],
        is_writable: true,
        data: Err(ProgramError::AccountBorrowFailed),
    }];
    assert_eq!(run(&writable, &payload), Err(ProgramError::IncorrectProgramId));
}

#[test]
fn stored_key_is_the_one_that_counts() {
    let other = Falcon512PreparedPubkey::from_coeffs([1; 512]);
    let data = placed(&test_account(), 0);
    let accounts = [readonly(PROGRAM_ID, data.bytes())];
    let payload = build_ix_data(SIG, MSG);
    assert_eq!(process_instruction(&PROGRAM_ID, &accounts, &payload, &other), Ok(()));
    assert_eq!(
        process_instruction(&PROGRAM_ID, &[], &payload, &other),
        Err(ProgramError::Custom(3))
    );
}

#[test]
fn errors_outside_the_reported_set_become_invalid_argument() {
    for kept in [
        ProgramError::InvalidArgument,
        ProgramError::InvalidInstructionData,
        ProgramError::AccountBorrowFailed,
        ProgramError::ArithmeticOverflow,
        ProgramError::Custom(0),
        ProgramError::Custom(77),
    ] {
        assert_eq!(map_falcon_error(kept), kept);
    }
    for other in [
        ProgramError::InvalidAccountData,
        ProgramError::IncorrectProgramId,
        ProgramError::IncorrectAuthority,
    ] {
        assert_eq!(map_falcon_error(other), ProgramError::InvalidArgument);
    }
}
