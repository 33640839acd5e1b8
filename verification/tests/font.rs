use alphgen::bitmap_font;
use alphgen::error::FontError;
use alphgen::tables::cmap::Segment;
use alphgen::tables::gsub::LookupSubtable;
use alphgen::write_table;
use alphgen::writeutils::TwoWrite;
use alphgen::Font;
use alphgen::GlyphId;

static MISSING: [u8; 8] = 0xff99a589918191ffu64.to_be_bytes();
static A: [u8; 8] = 0x0000708888986800u64.to_be_bytes();
static B: [u8; 8] = 0x8080f0888888f000u64.to_be_bytes();

const FONT_OF_A_AND_B: [u8; 1172] = [
    0x00, 0x01, 0x00, 0x00, 0x00, 0x0a, 0x00, 0x80, 0x00, 0x03, 0x00, 0x20, 0x4f, 0x53, 0x2f, 0x32,
    0x21, 0xf0, 0x20, 0xcc, 0x00, 0x00, 0x00, 0xac, 0x00, 0x00, 0x00, 0x64, 0x63, 0x6d, 0x61, 0x70,
    0x00, 0x09, 0x00, 0x97, 0x00, 0x00, 0x01, 0x10, 0x00, 0x00, 0x00, 0x2c, 0x67, 0x6c, 0x79, 0x66,
    0x61, 0xd5, 0x5e, 0x75, 0x00, 0x00, 0x01, 0x3c, 0x00, 0x00, 0x00, 0xca, 0x68, 0x65, 0x61, 0x64,
    0x6b, 0x32, 0x51, 0x2d, 0x00, 0x00, 0x02, 0x08, 0x00, 0x00, 0x00, 0x38, 0x68, 0x68, 0x65, 0x61,
    0x00, 0x11, 0x00, 0x12, 0x00, 0x00, 0x02, 0x40, 0x00, 0x00, 0x00, 0x24, 0x68, 0x6d, 0x74, 0x78,
    0x00, 0x08, 0x00, 0x00, 0x00, 0x00, 0x02, 0x64, 0x00, 0x00, 0x00, 0x08, 0x6c, 0x6f, 0x63, 0x61,
    0x00, 0x9c, 0x01, 0x26, 0x00, 0x00, 0x02, 0x6c, 0x00, 0x00, 0x00, 0x08, 0x6d, 0x61, 0x78, 0x70,
    0x00, 0x0b, 0x00, 0x23, 0x00, 0x00, 0x02, 0x74, 0x00, 0x00, 0x00, 0x20, 0x6e, 0x61, 0x6d, 0x65,
    0xc8, 0xb3, 0xa6, 0xeb, 0x00, 0x00, 0x02, 0x94, 0x00, 0x00, 0x01, 0xd7, 0x70, 0x6f, 0x73, 0x74,
    0x00, 0x49, 0x00, 0x47, 0x00, 0x00, 0x04, 0x6c, 0x00, 0x00, 0x00, 0x28, 0x00, 0x05, 0x00, 0x08,
    0x01, 0x90, 0x00, 0x05, 0x00, 0x00, 0x00, 0x08, 0x00, 0x08, 0x00, 0x00, 0x00, 0x00, 0x00, 0x08,
    0x00, 0x08, 0x00, 0x00, 0x00, 0x00, 0x00, 0x01, 0x00, 0x04, 0x00, 0x00, 0x00, 0x00, 0x00, 0x00,
    0x00, 0x00, 0x00, 0x00, 0x00, 0x00, 0x00, 0x00, 0x00, 0x00, 0x00, 0x00, 0x00, 0x00, 0x00, 0x00,
    0x00, 0x00, 0x00, 0x00, 0x00, 0x00, 0x20, 0x20, 0x20, 0x20, 0x00, 0x00, 0x00, 0x00, 0x00, 0x80,
    0x00, 0x00, 0x00, 0x00, 0x00, 0x00, 0x00, 0x08, 0x00, 0x00, 0x00, 0x00, 0x00, 0x00, 0x00, 0x00,
    0x00, 0x00, 0x00, 0x05, 0x00, 0x06, 0x00, 0x00, 0x00, 0x20, 0x00, 0x02, 0x00, 0x00, 0xff, 0xff,
    0x00, 0x00, 0x00, 0x01, 0x00, 0x00, 0x00, 0x03, 0x00, 0x00, 0x00, 0x0c, 0x00, 0x04, 0x00, 0x20,
    0x00, 0x00, 0x00, 0x04, 0x00, 0x04, 0x00, 0x01, 0x00, 0x00, 0x00, 0x62, 0xff, 0xff, 0x00, 0x00,
    0x00, 0x61, 0xff, 0xff, 0xff, 0xa0, 0x00, 0x01, 0x00, 0x00, 0x00, 0x00, 0x00, 0x06, 0x00, 0x00,
    0x00, 0x00, 0x00, 0x08, 0x00, 0x08, 0x00, 0x03, 0x00, 0x0f, 0x00, 0x13, 0x00, 0x17, 0x00, 0x1b,
    0x00, 0x1f, 0x00, 0x00, 0x33, 0x35, 0x23, 0x15, 0x37, 0x33, 0x15, 0x33, 0x35, 0x33, 0x15, 0x23,
    0x35, 0x23, 0x15, 0x23, 0x37, 0x35, 0x23, 0x15, 0x37, 0x35, 0x23, 0x15, 0x27, 0x35, 0x23, 0x15,
    0x33, 0x35, 0x23, 0x15, 0x08, 0x08, 0x01, 0x02, 0x02, 0x02, 0x03, 0x01, 0x02, 0x03, 0x01, 0x02,
    0x01, 0x01, 0x01, 0x04, 0x01, 0x08, 0x08, 0x07, 0x01, 0x01, 0x06, 0x01, 0x01, 0x02, 0x01, 0x01,
    0x01, 0x01, 0x01, 0x01, 0x01, 0x01, 0x01, 0x01, 0x00, 0x04, 0x00, 0x00, 0x00, 0x00, 0x00, 0x08,
    0x00, 0x08, 0x00, 0x03, 0x00, 0x0b, 0x00, 0x0f, 0x00, 0x13, 0x00, 0x00, 0x37, 0x35, 0x23, 0x15,
    0x33, 0x35, 0x23, 0x15, 0x23, 0x15, 0x33, 0x15, 0x27, 0x35, 0x23, 0x15, 0x37, 0x35, 0x23, 0x15,
    0x03, 0x02, 0x04, 0x01, 0x01, 0x01, 0x03, 0x01, 0x04, 0x03, 0x01, 0x01, 0x01, 0x04, 0x02, 0x01,
    0x01, 0x01, 0x03, 0x03, 0x03, 0x01, 0x01, 0x00, 0x00, 0x02, 0x00, 0x00, 0x00, 0x00, 0x00, 0x08,
    0x00, 0x08, 0x00, 0x09, 0x00, 0x0d, 0x00, 0x00, 0x37, 0x35, 0x23, 0x35, 0x33, 0x35, 0x23, 0x35,
    0x23, 0x15, 0x37, 0x35, 0x23, 0x15, 0x04, 0x03, 0x03, 0x03, 0x01, 0x05, 0x01, 0x01, 0x01, 0x03,
    0x01, 0x02, 0x07, 0x01, 0x03, 0x03, 0x00, 0x00, 0x00, 0x01, 0x00, 0x00, 0x00, 0x01, 0x00, 0x00,
    0x00, 0x00, 0x00, 0x00, 0x5f, 0x0f, 0x3c, 0xf5, 0x00, 0x08, 0x00, 0x10, 0x01, 0x02, 0x03, 0x04,
    0x05, 0x06, 0x07, 0x08, 0x01, 0x02, 0x03, 0x04, 0x05, 0x06, 0x07, 0x08, 0x00, 0x00, 0x00, 0x00,
    0x00, 0x08, 0x00, 0x08, 0x00, 0x00, 0x00, 0x08, 0x00, 0x01, 0x00, 0x00, 0x00, 0x00, 0x00, 0x00,
    0x00, 0x01, 0x00, 0x00, 0x00, 0x00, 0x00, 0x00, 0x00, 0x00, 0x00, 0x08, 0x00, 0x00, 0x00, 0x08,
    0x00, 0x10, 0x00, 0x01, 0x00, 0x00, 0x00, 0x00, 0x00, 0x00, 0x00, 0x00, 0x00, 0x00, 0x00, 0x00,
    0x00, 0x00, 0x00, 0x01, 0x00, 0x08, 0x00, 0x00, 0x00, 0x00, 0x00, 0x00, 0x00, 0x00, 0x00, 0x5c,
    0x00, 0x9c, 0x00, 0xca, 0x00, 0x01, 0x00, 0x00, 0x00, 0x03, 0x00, 0x20, 0x00, 0x06, 0x00, 0x00,
    0x00, 0x00, 0x00, 0x02, 0x00, 0x00, 0x00, 0x00, 0x00, 0x00, 0x00, 0x00, 0x00, 0x00, 0x00, 0x00,
    0x00, 0x01, 0x00, 0x01, 0x00, 0x00, 0x00, 0x10, 0x00, 0xc6, 0x00, 0x01, 0x00, 0x00, 0x00, 0x00,
    0x00, 0x00, 0x00, 0x0c, 0x00, 0x00, 0x00, 0x01, 0x00, 0x00, 0x00, 0x00, 0x00, 0x01, 0x00, 0x0c,
    0x00, 0x0c, 0x00, 0x01, 0x00, 0x00, 0x00, 0x00, 0x00, 0x02, 0x00, 0x07, 0x00, 0x18, 0x00, 0x01,
    0x00, 0x00, 0x00, 0x00, 0x00, 0x03, 0x00, 0x0c, 0x00, 0x1f, 0x00, 0x01, 0x00, 0x00, 0x00, 0x00,
    0x00, 0x04, 0x00, 0x0c, 0x00, 0x2b, 0x00, 0x01, 0x00, 0x00, 0x00, 0x00, 0x00, 0x05, 0x00, 0x0c,
    0x00, 0x37, 0x00, 0x01, 0x00, 0x00, 0x00, 0x00, 0x00, 0x06, 0x00, 0x0c, 0x00, 0x43, 0x00, 0x01,
    0x00, 0x00, 0x00, 0x00, 0x00, 0x0a, 0x00, 0x0c, 0x00, 0x4f, 0x00, 0x03, 0x00, 0x01, 0x04, 0x09,
    0x00, 0x00, 0x00, 0x18, 0x00, 0x5b, 0x00, 0x03, 0x00, 0x01, 0x04, 0x09, 0x00, 0x01, 0x00, 0x18,
    0x00, 0x73, 0x00, 0x03, 0x00, 0x01, 0x04, 0x09, 0x00, 0x02, 0x00, 0x0e, 0x00, 0x8b, 0x00, 0x03,
    0x00, 0x01, 0x04, 0x09, 0x00, 0x03, 0x00, 0x18, 0x00, 0x99, 0x00, 0x03, 0x00, 0x01, 0x04, 0x09,
    0x00, 0x04, 0x00, 0x18, 0x00, 0xb1, 0x00, 0x03, 0x00, 0x01, 0x04, 0x09, 0x00, 0x05, 0x00, 0x18,
    0x00, 0xc9, 0x00, 0x03, 0x00, 0x01, 0x04, 0x09, 0x00, 0x06, 0x00, 0x18, 0x00, 0xe1, 0x00, 0x03,
    0x00, 0x01, 0x04, 0x09, 0x00, 0x0a, 0x00, 0x18, 0x00, 0xf9, 0x4d, 0x79, 0x20, 0x4e, 0x65, 0x61,
    0x74, 0x20, 0x46, 0x6f, 0x6e, 0x74, 0x4d, 0x79, 0x20, 0x4e, 0x65, 0x61, 0x74, 0x20, 0x46, 0x6f,
    0x6e, 0x74, 0x52, 0x65, 0x67, 0x75, 0x6c, 0x61, 0x72, 0x4d, 0x79, 0x20, 0x4e, 0x65, 0x61, 0x74,
    0x20, 0x46, 0x6f, 0x6e, 0x74, 0x4d, 0x79, 0x20, 0x4e, 0x65, 0x61, 0x74, 0x20, 0x46, 0x6f, 0x6e,
    0x74, 0x4d, 0x79, 0x20, 0x4e, 0x65, 0x61, 0x74, 0x20, 0x46, 0x6f, 0x6e, 0x74, 0x4d, 0x79, 0x20,
    0x4e, 0x65, 0x61, 0x74, 0x20, 0x46, 0x6f, 0x6e, 0x74, 0x4d, 0x79, 0x20, 0x4e, 0x65, 0x61, 0x74,
    0x20, 0x46, 0x6f, 0x6e, 0x74, 0x00, 0x4d, 0x00, 0x79, 0x00, 0x20, 0x00, 0x4e, 0x00, 0x65, 0x00,
    0x61, 0x00, 0x74, 0x00, 0x20, 0x00, 0x46, 0x00, 0x6f, 0x00, 0x6e, 0x00, 0x74, 0x00, 0x4d, 0x00,
    0x79, 0x00, 0x20, 0x00, 0x4e, 0x00, 0x65, 0x00, 0x61, 0x00, 0x74, 0x00, 0x20, 0x00, 0x46, 0x00,
    0x6f, 0x00, 0x6e, 0x00, 0x74, 0x00, 0x52, 0x00, 0x65, 0x00, 0x67, 0x00, 0x75, 0x00, 0x6c, 0x00,
    0x61, 0x00, 0x72, 0x00, 0x4d, 0x00, 0x79, 0x00, 0x20, 0x00, 0x4e, 0x00, 0x65, 0x00, 0x61, 0x00,
    0x74, 0x00, 0x20, 0x00, 0x46, 0x00, 0x6f, 0x00, 0x6e, 0x00, 0x74, 0x00, 0x4d, 0x00, 0x79, 0x00,
    0x20, 0x00, 0x4e, 0x00, 0x65, 0x00, 0x61, 0x00, 0x74, 0x00, 0x20, 0x00, 0x46, 0x00, 0x6f, 0x00,
    0x6e, 0x00, 0x74, 0x00, 0x4d, 0x00, 0x79, 0x00, 0x20, 0x00, 0x4e, 0x00, 0x65, 0x00, 0x61, 0x00,
    0x74, 0x00, 0x20, 0x00, 0x46, 0x00, 0x6f, 0x00, 0x6e, 0x00, 0x74, 0x00, 0x4d, 0x00, 0x79, 0x00,
    0x20, 0x00, 0x4e, 0x00, 0x65, 0x00, 0x61, 0x00, 0x74, 0x00, 0x20, 0x00, 0x46, 0x00, 0x6f, 0x00,
    0x6e, 0x00, 0x74, 0x00, 0x4d, 0x00, 0x79, 0x00, 0x20, 0x00, 0x4e, 0x00, 0x65, 0x00, 0x61, 0x00,
    0x74, 0x00, 0x20, 0x00, 0x46, 0x00, 0x6f, 0x00, 0x6e, 0x00, 0x74, 0x00, 0x00, 0x02, 0x00, 0x00,
    0x00, 0x00, 0x00, 0x00, 0x00, 0x00, 0x00, 0x01, 0x00, 0x00, 0x00, 0x01, 0x00, 0x00, 0x00, 0x00,
    0x00, 0x00, 0x00, 0x00, 0x00, 0x00, 0x00, 0x00, 0x00, 0x00, 0x00, 0x00, 0x00, 0x03, 0x00, 0x00,
    0x00, 0x44, 0x00, 0x45,
];

const FONT_WITH_LIGATURES: [u8; 1448] = [
    0x00, 0x01, 0x00, 0x00, 0x00, 0x0b, 0x00, 0x80, 0x00, 0x03, 0x00, 0x30, 0x47, 0x53, 0x55, 0x42,
    0xac, 0x1b, 0xb9, 0x1c, 0x00, 0x00, 0x00, 0xbc, 0x00, 0x00, 0x00, 0x5c, 0x4f, 0x53, 0x2f, 0x32,
    0x21, 0xf0, 0x20, 0xcc, 0x00, 0x00, 0x01, 0x18, 0x00, 0x00, 0x00, 0x64, 0x63, 0x6d, 0x61, 0x70,
    0x00, 0x09, 0x00, 0x97, 0x00, 0x00, 0x01, 0x7c, 0x00, 0x00, 0x00, 0x2c, 0x67, 0x6c, 0x79, 0x66,
    0x35, 0x91, 0x07, 0x94, 0x00, 0x00, 0x01, 0xa8, 0x00, 0x00, 0x01, 0x66, 0x68, 0x65, 0x61, 0x64,
    0x5f, 0x22, 0x3d, 0x23, 0x00, 0x00, 0x03, 0x10, 0x00, 0x00, 0x00, 0x38, 0x68, 0x68, 0x65, 0x61,
    0x00, 0x11, 0x00, 0x12, 0x00, 0x00, 0x03, 0x48, 0x00, 0x00, 0x00, 0x24, 0x68, 0x6d, 0x74, 0x78,
    0x00, 0x08, 0x00, 0x00, 0x00, 0x00, 0x03, 0x6c, 0x00, 0x00, 0x00, 0x0c, 0x6c, 0x6f, 0x63, 0x61,
    0x01, 0xc2, 0x02, 0x8c, 0x00, 0x00, 0x03, 0x78, 0x00, 0x00, 0x00, 0x0c, 0x6d, 0x61, 0x78, 0x70,
    0x00, 0x0d, 0x00, 0x23, 0x00, 0x00, 0x03, 0x84, 0x00, 0x00, 0x00, 0x20, 0x6e, 0x61, 0x6d, 0x65,
    0xc8, 0xb3, 0xa6, 0xeb, 0x00, 0x00, 0x03, 0xa4, 0x00, 0x00, 0x01, 0xd7, 0x70, 0x6f, 0x73, 0x74,
    0x00, 0x4b, 0x00, 0x47, 0x00, 0x00, 0x05, 0x7c, 0x00, 0x00, 0x00, 0x2c, 0x00, 0x01, 0x00, 0x00,
    0x00, 0x0a, 0x00, 0x1c, 0x00, 0x2a, 0x00, 0x01, 0x44, 0x46, 0x4c, 0x54, 0x00, 0x08, 0x00, 0x04,
    0x00, 0x00, 0x00, 0x00, 0x00, 0x00, 0x00, 0x00, 0x00, 0x01, 0x6c, 0x69, 0x67, 0x61, 0x00, 0x08,
    0x00, 0x00, 0x00, 0x01, 0x00, 0x00, 0x00, 0x01, 0x00, 0x04, 0x00, 0x04, 0x00, 0x00, 0x00, 0x01,
    0x00, 0x08, 0x00, 0x01, 0x00, 0x0a, 0x00, 0x02, 0x00, 0x12, 0x00, 0x1c, 0x00, 0x01, 0x00, 0x02,
    0x00, 0x01, 0x00, 0x02, 0x00, 0x01, 0x00, 0x04, 0x00, 0x03, 0x00, 0x02, 0x00, 0x02, 0x00, 0x01,
    0x00, 0x04, 0x00, 0x04, 0x00, 0x02, 0x00, 0x01, 0x00, 0x05, 0x00, 0x08, 0x01, 0x90, 0x00, 0x05,
    0x00, 0x00, 0x00, 0x08, 0x00, 0x08, 0x00, 0x00, 0x00, 0x00, 0x00, 0x08, 0x00, 0x08, 0x00, 0x00,
    0x00, 0x00, 0x00, 0x01, 0x00, 0x04, 0x00, 0x00, 0x00, 0x00, 0x00, 0x00, 0x00, 0x00, 0x00, 0x00,
    0x00, 0x00, 0x00, 0x00, 0x00, 0x00, 0x00, 0x00, 0x00, 0x00, 0x00, 0x00, 0x00, 0x00, 0x00, 0x00,
    0x00, 0x00, 0x20, 0x20, 0x20, 0x20, 0x00, 0x00, 0x00, 0x00, 0x00, 0x80, 0x00, 0x00, 0x00, 0x00,
    0x00, 0x00, 0x00, 0x08, 0x00, 0x00, 0x00, 0x00, 0x00, 0x00, 0x00, 0x00, 0x00, 0x00, 0x00, 0x05,
    0x00, 0x06, 0x00, 0x00, 0x00, 0x20, 0x00, 0x02, 0x00, 0x00, 0xff, 0xff, 0x00, 0x00, 0x00, 0x01,
    0x00, 0x00, 0x00, 0x03, 0x00, 0x00, 0x00, 0x0c, 0x00, 0x04, 0x00, 0x20, 0x00, 0x00, 0x00, 0x04,
    0x00, 0x04, 0x00, 0x01, 0x00, 0x00, 0x00, 0x62, 0xff, 0xff, 0x00, 0x00, 0x00, 0x61, 0xff, 0xff,
    0xff, 0xa0, 0x00, 0x01, 0x00, 0x00, 0x00, 0x00, 0x00, 0x06, 0x00, 0x00, 0x00, 0x00, 0x00, 0x08,
    0x00, 0x08, 0x00, 0x03, 0x00, 0x0f, 0x00, 0x13, 0x00, 0x17, 0x00, 0x1b, 0x00, 0x1f, 0x00, 0x00,
    0x33, 0x35, 0x23, 0x15, 0x37, 0x33, 0x15, 0x33, 0x35, 0x33, 0x15, 0x23, 0x35, 0x23, 0x15, 0x23,
    0x37, 0x35, 0x23, 0x15, 0x37, 0x35, 0x23, 0x15, 0x27, 0x35, 0x23, 0x15, 0x33, 0x35, 0x23, 0x15,
    0x08, 0x08, 0x01, 0x02, 0x02, 0x02, 0x03, 0x01, 0x02, 0x03, 0x01, 0x02, 0x01, 0x01, 0x01, 0x04,
    0x01, 0x08, 0x08, 0x07, 0x01, 0x01, 0x06, 0x01, 0x01, 0x02, 0x01, 0x01, 0x01, 0x01, 0x01, 0x01,
    0x01, 0x01, 0x01, 0x01, 0x00, 0x04, 0x00, 0x00, 0x00, 0x00, 0x00, 0x08, 0x00, 0x08, 0x00, 0x03,
    0x00, 0x0b, 0x00, 0x0f, 0x00, 0x13, 0x00, 0x00, 0x37, 0x35, 0x23, 0x15, 0x33, 0x35, 0x23, 0x15,
    0x23, 0x15, 0x33, 0x15, 0x27, 0x35, 0x23, 0x15, 0x37, 0x35, 0x23, 0x15, 0x03, 0x02, 0x04, 0x01,
    0x01, 0x01, 0x03, 0x01, 0x04, 0x03, 0x01, 0x01, 0x01, 0x04, 0x02, 0x01, 0x01, 0x01, 0x03, 0x03,
    0x03, 0x01, 0x01, 0x00, 0x00, 0x02, 0x00, 0x00, 0x00, 0x00, 0x00, 0x08, 0x00, 0x08, 0x00, 0x09,
    0x00, 0x0d, 0x00, 0x00, 0x37, 0x35, 0x23, 0x35, 0x33, 0x35, 0x23, 0x35, 0x23, 0x15, 0x37, 0x35,
    0x23, 0x15, 0x04, 0x03, 0x03, 0x03, 0x01, 0x05, 0x01, 0x01, 0x01, 0x03, 0x01, 0x02, 0x07, 0x01,
    0x03, 0x03, 0x00, 0x06, 0x00, 0x00, 0x00, 0x00, 0x00, 0x08, 0x00, 0x08, 0x00, 0x03, 0x00, 0x0f,
    0x00, 0x13, 0x00, 0x17, 0x00, 0x1b, 0x00, 0x1f, 0x00, 0x00, 0x33, 0x35, 0x23, 0x15, 0x37, 0x33,
    0x15, 0x33, 0x35, 0x33, 0x15, 0x23, 0x35, 0x23, 0x15, 0x23, 0x37, 0x35, 0x23, 0x15, 0x37, 0x35,
    0x23, 0x15, 0x27, 0x35, 0x23, 0x15, 0x33, 0x35, 0x23, 0x15, 0x08, 0x08, 0x01, 0x02, 0x02, 0x02,
    0x03, 0x01, 0x02, 0x03, 0x01, 0x02, 0x01, 0x01, 0x01, 0x04, 0x01, 0x08, 0x08, 0x07, 0x01, 0x01,
    0x06, 0x01, 0x01, 0x02, 0x01, 0x01, 0x01, 0x01, 0x01, 0x01, 0x01, 0x01, 0x01, 0x01, 0x00, 0x04,
    0x00, 0x00, 0x00, 0x00, 0x00, 0x08, 0x00, 0x08, 0x00, 0x03, 0x00, 0x0b, 0x00, 0x0f, 0x00, 0x13,
    0x00, 0x00, 0x37, 0x35, 0x23, 0x15, 0x33, 0x35, 0x23, 0x15, 0x23, 0x15, 0x33, 0x15, 0x27, 0x35,
    0x23, 0x15, 0x37, 0x35, 0x23, 0x15, 0x03, 0x02, 0x04, 0x01, 0x01, 0x01, 0x03, 0x01, 0x04, 0x03,
    0x01, 0x01, 0x01, 0x04, 0x02, 0x01, 0x01, 0x01, 0x03, 0x03, 0x03, 0x01, 0x01, 0x00, 0x00, 0x00,
    0x00, 0x01, 0x00, 0x00, 0x00, 0x01, 0x00, 0x00, 0x00, 0x00, 0x00, 0x00, 0x5f, 0x0f, 0x3c, 0xf5,
    0x00, 0x08, 0x00, 0x10, 0x00, 0x00, 0x00, 0x00, 0x00, 0x00, 0x00, 0x07, 0x00, 0x00, 0x00, 0x00,
    0x00, 0x00, 0x00, 0x07, 0x00, 0x00, 0x00, 0x00, 0x00, 0x08, 0x00, 0x08, 0x00, 0x00, 0x00, 0x08,
    0x00, 0x01, 0x00, 0x00, 0x00, 0x00, 0x00, 0x00, 0x00, 0x01, 0x00, 0x00, 0x00, 0x00, 0x00, 0x00,
    0x00, 0x00, 0x00, 0x08, 0x00, 0x00, 0x00, 0x08, 0x00, 0x10, 0x00, 0x01, 0x00, 0x00, 0x00, 0x00,
    0x00, 0x00, 0x00, 0x00, 0x00, 0x00, 0x00, 0x00, 0x00, 0x00, 0x00, 0x01, 0x00, 0x08, 0x00, 0x00,
    0x00, 0x00, 0x00, 0x00, 0x00, 0x00, 0x00, 0x00, 0x00, 0x00, 0x00, 0x5c, 0x00, 0x9c, 0x00, 0xca,
    0x01, 0x26, 0x01, 0x66, 0x00, 0x01, 0x00, 0x00, 0x00, 0x05, 0x00, 0x20, 0x00, 0x06, 0x00, 0x00,
    0x00, 0x00, 0x00, 0x02, 0x00, 0x00, 0x00, 0x00, 0x00, 0x00, 0x00, 0x00, 0x00, 0x00, 0x00, 0x00,
    0x00, 0x01, 0x00, 0x01, 0x00, 0x00, 0x00, 0x10, 0x00, 0xc6, 0x00, 0x01, 0x00, 0x00, 0x00, 0x00,
    0x00, 0x00, 0x00, 0x0c, 0x00, 0x00, 0x00, 0x01, 0x00, 0x00, 0x00, 0x00, 0x00, 0x01, 0x00, 0x0c,
    0x00, 0x0c, 0x00, 0x01, 0x00, 0x00, 0x00, 0x00, 0x00, 0x02, 0x00, 0x07, 0x00, 0x18, 0x00, 0x01,
    0x00, 0x00, 0x00, 0x00, 0x00, 0x03, 0x00, 0x0c, 0x00, 0x1f, 0x00, 0x01, 0x00, 0x00, 0x00, 0x00,
    0x00, 0x04, 0x00, 0x0c, 0x00, 0x2b, 0x00, 0x01, 0x00, 0x00, 0x00, 0x00, 0x00, 0x05, 0x00, 0x0c,
    0x00, 0x37, 0x00, 0x01, 0x00, 0x00, 0x00, 0x00, 0x00, 0x06, 0x00, 0x0c, 0x00, 0x43, 0x00, 0x01,
    0x00, 0x00, 0x00, 0x00, 0x00, 0x0a, 0x00, 0x0c, 0x00, 0x4f, 0x00, 0x03, 0x00, 0x01, 0x04, 0x09,
    0x00, 0x00, 0x00, 0x18, 0x00, 0x5b, 0x00, 0x03, 0x00, 0x01, 0x04, 0x09, 0x00, 0x01, 0x00, 0x18,
    0x00, 0x73, 0x00, 0x03, 0x00, 0x01, 0x04, 0x09, 0x00, 0x02, 0x00, 0x0e, 0x00, 0x8b, 0x00, 0x03,
    0x00, 0x01, 0x04, 0x09, 0x00, 0x03, 0x00, 0x18, 0x00, 0x99, 0x00, 0x03, 0x00, 0x01, 0x04, 0x09,
    0x00, 0x04, 0x00, 0x18, 0x00, 0xb1, 0x00, 0x03, 0x00, 0x01, 0x04, 0x09, 0x00, 0x05, 0x00, 0x18,
    0x00, 0xc9, 0x00, 0x03, 0x00, 0x01, 0x04, 0x09, 0x00, 0x06, 0x00, 0x18, 0x00, 0xe1, 0x00, 0x03,
    0x00, 0x01, 0x04, 0x09, 0x00, 0x0a, 0x00, 0x18, 0x00, 0xf9, 0x4d, 0x79, 0x20, 0x4e, 0x65, 0x61,
    0x74, 0x20, 0x46, 0x6f, 0x6e, 0x74, 0x4d, 0x79, 0x20, 0x4e, 0x65, 0x61, 0x74, 0x20, 0x46, 0x6f,
    0x6e, 0x74, 0x52, 0x65, 0x67, 0x75, 0x6c, 0x61, 0x72, 0x4d, 0x79, 0x20, 0x4e, 0x65, 0x61, 0x74,
    0x20, 0x46, 0x6f, 0x6e, 0x74, 0x4d, 0x79, 0x20, 0x4e, 0x65, 0x61, 0x74, 0x20, 0x46, 0x6f, 0x6e,
    0x74, 0x4d, 0x79, 0x20, 0x4e, 0x65, 0x61, 0x74, 0x20, 0x46, 0x6f, 0x6e, 0x74, 0x4d, 0x79, 0x20,
    0x4e, 0x65, 0x61, 0x74, 0x20, 0x46, 0x6f, 0x6e, 0x74, 0x4d, 0x79, 0x20, 0x4e, 0x65, 0x61, 0x74,
    0x20, 0x46, 0x6f, 0x6e, 0x74, 0x00, 0x4d, 0x00, 0x79, 0x00, 0x20, 0x00, 0x4e, 0x00, 0x65, 0x00,
    0x61, 0x00, 0x74, 0x00, 0x20, 0x00, 0x46, 0x00, 0x6f, 0x00, 0x6e, 0x00, 0x74, 0x00, 0x4d, 0x00,
    0x79, 0x00, 0x20, 0x00, 0x4e, 0x00, 0x65, 0x00, 0x61, 0x00, 0x74, 0x00, 0x20, 0x00, 0x46, 0x00,
    0x6f, 0x00, 0x6e, 0x00, 0x74, 0x00, 0x52, 0x00, 0x65, 0x00, 0x67, 0x00, 0x75, 0x00, 0x6c, 0x00,
    0x61, 0x00, 0x72, 0x00, 0x4d, 0x00, 0x79, 0x00, 0x20, 0x00, 0x4e, 0x00, 0x65, 0x00, 0x61, 0x00,
    0x74, 0x00, 0x20, 0x00, 0x46, 0x00, 0x6f, 0x00, 0x6e, 0x00, 0x74, 0x00, 0x4d, 0x00, 0x79, 0x00,
    0x20, 0x00, 0x4e, 0x00, 0x65, 0x00, 0x61, 0x00, 0x74, 0x00, 0x20, 0x00, 0x46, 0x00, 0x6f, 0x00,
    0x6e, 0x00, 0x74, 0x00, 0x4d, 0x00, 0x79, 0x00, 0x20, 0x00, 0x4e, 0x00, 0x65, 0x00, 0x61, 0x00,
    0x74, 0x00, 0x20, 0x00, 0x46, 0x00, 0x6f, 0x00, 0x6e, 0x00, 0x74, 0x00, 0x4d, 0x00, 0x79, 0x00,
    0x20, 0x00, 0x4e, 0x00, 0x65, 0x00, 0x61, 0x00, 0x74, 0x00, 0x20, 0x00, 0x46, 0x00, 0x6f, 0x00,
    0x6e, 0x00, 0x74, 0x00, 0x4d, 0x00, 0x79, 0x00, 0x20, 0x00, 0x4e, 0x00, 0x65, 0x00, 0x61, 0x00,
    0x74, 0x00, 0x20, 0x00, 0x46, 0x00, 0x6f, 0x00, 0x6e, 0x00, 0x74, 0x00, 0x00, 0x02, 0x00, 0x00,
    0x00, 0x00, 0x00, 0x00, 0x00, 0x00, 0x00, 0x01, 0x00, 0x00, 0x00, 0x01, 0x00, 0x00, 0x00, 0x00,
    0x00, 0x00, 0x00, 0x00, 0x00, 0x00, 0x00, 0x00, 0x00, 0x00, 0x00, 0x00, 0x00, 0x05, 0x00, 0x00,
    0x00, 0x44, 0x00, 0x45, 0x00, 0x00, 0x00, 0x00,
];

fn font_of_a_and_b(now: i64) -> Font {
    // the glyphs are given out of order
    bitmap_font(8, 8, &MISSING, vec![('b', &B[..]), ('a', &A[..])], Vec::new(), now).unwrap()
}

fn image(font: &Font) -> Vec<u8> {
    assert!(font.is_wf());
    let mut out = Vec::new();
    assert_eq!(font.write_to(&mut out), Ok(()));
    out
}

fn be16(bytes: &[u8], at: usize) -> u16 {
    u16::from_be_bytes([bytes[at], bytes[at + 1]])
}

fn be32(bytes: &[u8], at: usize) -> u32 {
    u32::from_be_bytes([bytes[at], bytes[at + 1], bytes[at + 2], bytes[at + 3]])
}

/// The tables of a font file: tag, checksum, offset, length.
fn directory(bytes: &[u8]) -> Vec<([u8; 4], u32, usize, usize)> {
    assert_eq!(&bytes[..4], &[0, 1, 0, 0]);
    let count = be16(bytes, 4) as usize;
    (0..count)
        .map(|i| {
            let at = 12 + 16 * i;
            let tag = [bytes[at], bytes[at + 1], bytes[at + 2], bytes[at + 3]];
            (tag, be32(bytes, at + 4), be32(bytes, at + 8) as usize, be32(bytes, at + 12) as usize)
        })
        .collect()
}

fn table<'a>(bytes: &'a [u8], tag: &[u8; 4]) -> &'a [u8] {
    let (_, _, offset, length) =
        directory(bytes).into_iter().find(|entry| &entry.0 == tag).unwrap();
    &bytes[offset..offset + length]
}

fn checksum(table: &[u8]) -> u32 {
    let mut padded = table.to_vec();
    while padded.len() % 4 != 0 {
        padded.push(0);
    }
    padded.chunks(4).fold(0u32, |sum, word| sum.wrapping_add(be32(word, 0)))
}

#[test]
fn font_of_a_and_b_has_three_glyphs() {
    let font = font_of_a_and_b(0);
    assert_eq!(font.glyf.count_glyphs(), 3);
    assert_eq!(font.maxp.num_glyphs, 3);
    // one offset for each glyph and one for the end
    assert_eq!(font.loca.len(), 4);
    assert_eq!(
        (font.loca.offset(0), font.loca.offset(1), font.loca.offset(2), font.loca.offset(3)),
        (0, 92, 156, 202)
    );
    assert!(!font.loca.needs_long());
    assert_eq!(font.head.index_to_loc_format, 0);
    assert_eq!(font.hmtx.len(), 3);
    assert_eq!(font.hhea.num_of_long_hor_metrics, 1);
    assert_eq!(font.name.len(), 16);
    assert!(font.gsub.is_none());
    assert_eq!(
        font.cmap.segments(0).unwrap(),
        vec![
            Segment { start: 0x61, end: 0x62, delta: -0x60 },
            Segment { start: 0xffff, end: 0xffff, delta: 1 },
        ]
    );
}

#[test]
fn font_of_a_and_b_maps_a_and_b() {
    let bytes = image(&font_of_a_and_b(0));
    let cmap = table(&bytes, b"cmap");
    // one subtable, of format 4, with two segments
    assert_eq!(be16(cmap, 2), 1);
    let subtable = &cmap[be32(cmap, 8) as usize..];
    assert_eq!(be16(subtable, 0), 4);
    let count = be16(subtable, 6) as usize / 2;
    assert_eq!(count, 2);
    let ends = 14;
    let starts = ends + 2 * count + 2;
    let deltas = starts + 2 * count;
    let offsets = deltas + 2 * count;
    assert_eq!(be16(subtable, 2) as usize, offsets + 2 * count);
    let glyph_of = |code: u16| -> u16 {
        let segment = (0..count).find(|&i| be16(subtable, ends + 2 * i) >= code).unwrap();
        if be16(subtable, starts + 2 * segment) > code {
            return 0;
        }
        assert_eq!(be16(subtable, offsets + 2 * segment), 0);
        code.wrapping_add(be16(subtable, deltas + 2 * segment))
    };
    for code in 0..=0xffffu16 {
        let expected = match code {
            0x61 => 1,
            0x62 => 2,
            _ => 0,
        };
        assert_eq!(glyph_of(code), expected, "code {code}");
    }
    // the glyphs are where the location table says
    let loca = table(&bytes, b"loca");
    assert_eq!(loca.len(), 8);
    let glyf = table(&bytes, b"glyf");
    assert_eq!(be16(loca, 6) as usize, glyf.len());
    // glyph 1 is the glyph of 'a', with four contours
    assert_eq!(be16(glyf, be16(loca, 2) as usize), 4);
}

#[test]
fn font_of_a_and_b_is_this_file() {
    let bytes = image(&font_of_a_and_b(0x0102030405060708));
    assert_eq!(bytes.len(), FONT_OF_A_AND_B.len());
    assert_eq!(bytes, FONT_OF_A_AND_B.to_vec());
}

#[test]
fn font_with_ligatures_is_this_file() {
    let font = bitmap_font(
        8,
        8,
        &MISSING,
        vec![('a', &A[..]), ('b', &B[..])],
        vec![("ab", &MISSING[..]), ("ba", &A[..])],
        7,
    )
    .unwrap();
    assert_eq!(font.glyf.count_glyphs(), 5);
    let gsub = font.gsub.as_ref().unwrap();
    let LookupSubtable::LigatureSubst(ligatures) = &gsub.lookup.list[0].subtable;
    assert_eq!(
        ligatures,
        &vec![
            (vec![GlyphId(1), GlyphId(2)], GlyphId(3)),
            (vec![GlyphId(2), GlyphId(1)], GlyphId(4)),
        ]
    );
    let bytes = image(&font);
    assert_eq!(bytes, FONT_WITH_LIGATURES.to_vec());
    assert_eq!(directory(&bytes)[0].0, *b"GSUB");
}

#[test]
fn font_file_has_a_directory_of_checked_tables() {
    for bytes in [FONT_OF_A_AND_B.to_vec(), image(&font_of_a_and_b(-5)), FONT_WITH_LIGATURES.to_vec()] {
        let tables = directory(&bytes);
        let count = tables.len();
        assert!(count == 10 || count == 11);
        // the binary-search parameters of the directory
        assert_eq!(be16(&bytes, 6), 128);
        assert_eq!(be16(&bytes, 8), 3);
        assert_eq!(be16(&bytes, 10) as usize, 16 * (count - 8));
        let mut tags: Vec<[u8; 4]> = tables.iter().map(|t| t.0).collect();
        if count == 11 {
            assert_eq!(tags.remove(0), *b"GSUB");
        }
        assert_eq!(
            tags,
            vec![
                *b"OS/2", *b"cmap", *b"glyf", *b"head", *b"hhea", *b"hmtx", *b"loca", *b"maxp",
                *b"name", *b"post"
            ]
        );
        let mut next = 12 + 16 * count;
        for (_, sum, offset, length) in tables {
            // the tables follow each other, each padded to a multiple of four bytes
            assert_eq!(offset, next);
            assert_eq!(offset % 4, 0);
            assert_eq!(sum, checksum(&bytes[offset..offset + length]));
            next = offset + length;
            while next % 4 != 0 {
                assert_eq!(bytes[next], 0);
                next += 1;
            }
        }
        assert_eq!(next, bytes.len());
    }
}

#[test]
fn compiling_twice_gives_the_same_file() {
    let first = image(&font_of_a_and_b(1234));
    let second = image(&font_of_a_and_b(1234));
    assert_eq!(first, second);
    // the order in which the glyphs are given does not matter
    let sorted =
        bitmap_font(8, 8, &MISSING, vec![('a', &A[..]), ('b', &B[..])], Vec::new(), 1234).unwrap();
    assert_eq!(image(&sorted), first);
}

#[test]
fn the_time_changes_the_font_header_only() {
    let first = image(&font_of_a_and_b(0));
    let second = image(&font_of_a_and_b(0x0102030405060708));
    assert_eq!(first.len(), second.len());
    let tables = directory(&first);
    let head = tables.iter().position(|t| t.0 == *b"head").unwrap();
    let dates = tables[head].2 + 20;
    assert_eq!(dates, 540);
    let record = 12 + 16 * head + 4;
    for i in 0..first.len() {
        let in_dates = dates <= i && i < dates + 16;
        let in_checksum = record <= i && i < record + 4;
        if !in_dates && !in_checksum {
            assert_eq!(first[i], second[i], "byte {i}");
        }
    }
    assert_eq!(&first[dates..dates + 16], &[0; 16]);
    assert_eq!(&second[dates..dates + 8], &[1, 2, 3, 4, 5, 6, 7, 8]);
    assert_eq!(&second[dates + 8..dates + 16], &[1, 2, 3, 4, 5, 6, 7, 8]);
    // the checksum of the font header follows the timestamps
    assert_ne!(be32(&first, record), be32(&second, record));
    // timestamps with the same sum of words leave the whole rest the same
    let third = image(&font_of_a_and_b(0x0000000100000002));
    let fourth = image(&font_of_a_and_b(0x0000000200000001));
    for i in 0..third.len() {
        if !(dates <= i && i < dates + 16) {
            assert_eq!(third[i], fourth[i], "byte {i}");
        }
    }
}

#[test]
fn write_to_writes_over_what_is_there() {
    let font = font_of_a_and_b(0x0102030405060708);
    let mut longer = vec![0xee; 1272];
    assert_eq!(font.write_to(&mut longer), Ok(()));
    assert_eq!(&longer[..1172], &FONT_OF_A_AND_B[..]);
    assert_eq!(&longer[1172..], &[0xee; 100]);
    let mut shorter = vec![0xee; 100];
    assert_eq!(font.write_to(&mut shorter), Ok(()));
    assert_eq!(shorter, FONT_OF_A_AND_B.to_vec());
}

#[test]
fn write_table_writes_table_and_record() {
    let font = font_of_a_and_b(0);
    let mut writer = TwoWrite::split_at(Vec::new(), 4);
    writer.write_all(&[0xaa; 4]).unwrap();
    writer.swap();
    writer.write_all(&[0xbb; 16]).unwrap();
    // the active head behind the record that is to come
    assert_eq!(write_table(&mut writer, &font.hmtx), Ok(()));
    assert_eq!(writer.stream_position(), 20 + 8);
    let image = writer.into_inner();
    assert_eq!(
        image,
        vec![
            0xaa, 0xaa, 0xaa, 0xaa, b'h', b'm', b't', b'x', 0x00, 0x08, 0x00, 0x00, 0x00, 0x00,
            0x00, 0x14, 0x00, 0x00, 0x00, 0x08, 0x00, 0x08, 0x00, 0x00, 0x00, 0x00, 0x00, 0x00
        ]
    );
}

#[test]
fn glyph_ids_follow_the_characters() {
    // three characters out of order, the same character twice with different bitmaps
    let font = bitmap_font(
        8,
        8,
        &MISSING,
        vec![('c', &B[..]), ('a', &B[..]), ('c', &A[..]), ('b', &MISSING[..])],
        vec![("cab", &A[..])],
        0,
    )
    .unwrap();
    assert_eq!(font.glyf.count_glyphs(), 6);
    assert_eq!(
        font.cmap.segments(0).unwrap(),
        vec![
            Segment { start: 0x61, end: 0x63, delta: -0x60 },
            Segment { start: 0x63, end: 0x63, delta: 4 - 0x63 },
            Segment { start: 0xffff, end: 0xffff, delta: 1 },
        ]
    );
    // the bitmap of 'a' sorts before the bitmap of 'b' for the same character
    let a_alone = bitmap_font(8, 8, &MISSING, vec![('c', &A[..])], Vec::new(), 0).unwrap();
    let size_of_a = a_alone.loca.offset(2) - a_alone.loca.offset(1);
    assert_eq!(font.loca.offset(4) - font.loca.offset(3), size_of_a);
    // a character of a ligature has the glyph where it is found first
    let gsub = font.gsub.as_ref().unwrap();
    let LookupSubtable::LigatureSubst(ligatures) = &gsub.lookup.list[0].subtable;
    assert_eq!(ligatures, &vec![(vec![GlyphId(3), GlyphId(1), GlyphId(2)], GlyphId(5))]);
}

#[test]
fn font_of_nothing_but_the_missing_glyph() {
    let font = bitmap_font(8, 8, &MISSING, Vec::new(), Vec::new(), 0).unwrap();
    assert_eq!(font.glyf.count_glyphs(), 1);
    assert_eq!(font.cmap.segments(0).unwrap(), vec![Segment::end_cap()]);
    let bytes = image(&font);
    assert_eq!(directory(&bytes).len(), 10);
    let empty = bitmap_font(0, 0, &[], Vec::new(), Vec::new(), 0).unwrap();
    assert_eq!(empty.loca.offset(1), 12);
}

#[test]
fn what_cannot_be_compiled() {
    let error = |r: Result<Font, FontError>| r.err().unwrap();
    // a bitmap with too few bits
    assert_eq!(
        error(bitmap_font(8, 8, &MISSING[..7], Vec::new(), Vec::new(), 0)),
        FontError::BitmapTooShort
    );
    assert_eq!(
        error(bitmap_font(8, 8, &MISSING, vec![('a', &A[..]), ('b', &B[..3])], Vec::new(), 0)),
        FontError::BitmapTooShort
    );
    assert_eq!(
        error(bitmap_font(8, 8, &MISSING, Vec::new(), vec![("", &B[..3])], 0)),
        FontError::BitmapTooShort
    );
    // a cell beyond the 16-bit bounds of a glyph
    assert_eq!(
        error(bitmap_font(0x8000, 0, &MISSING, Vec::new(), Vec::new(), 0)),
        FontError::TooLarge
    );
    // a character beyond the 16-bit code space
    assert_eq!(
        error(bitmap_font(8, 8, &MISSING, vec![('\u{1f600}', &A[..])], Vec::new(), 0)),
        FontError::CharOutOfRange
    );
    // a ligature of a character that has no glyph
    assert_eq!(
        error(bitmap_font(8, 8, &MISSING, vec![('a', &A[..])], vec![("ab", &B[..])], 0)),
        FontError::UnknownLigatureChar
    );
    // a ligature of nothing
    assert_eq!(
        error(bitmap_font(8, 8, &MISSING, vec![('a', &A[..])], vec![("", &B[..])], 0)),
        FontError::EmptyLigature
    );
    // the first ligature with which something is wrong decides
    assert_eq!(
        error(bitmap_font(
            8,
            8,
            &MISSING,
            vec![('a', &A[..])],
            vec![("a", &B[..]), ("ax", &B[..]), ("", &B[..])],
            0
        )),
        FontError::UnknownLigatureChar
    );
    // a character beyond the code space comes before a ligature
    assert_eq!(
        error(bitmap_font(8, 8, &MISSING, vec![('\u{10000}', &A[..])], vec![("", &B[..])], 0)),
        FontError::CharOutOfRange
    );
}
