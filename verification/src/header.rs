//! The self-describing text at the head of every file.
use vstd::prelude::*;
use vstd::utf8::{encode_scalar, encode_utf8};

verus! {

/// The text that tells a reader how to read the file.
pub const HEADER: &'static str = "XiRang Tree v1.0\n\nThis file stores a XiRang node tree in binary. All multi-byte integers are big-endian\n(most significant byte first; e.g. the bytes 00 00 00 2A represent the integer 42).\n\nFILE LAYOUT:\n  - The file begins with a fixed 5-byte prefix: magic \"XRNG\" (4 ASCII bytes) + a 1-byte\n    format version (currently 1).\n  - After the prefix: 4 bytes = the byte-length L of this text header (big-endian),\n    then L bytes of UTF-8 text (this documentation, NOT node data).\n  - The nodes begin at offset (5 + 4 + L).\n\nHOW TO PARSE A NODE:\nEach node = 4 fields, read in this exact order:\n  1. node_id:   read 16 bytes = a UUID (unique id of this node)\n  2. parent_id: read 16 bytes = a UUID (id of this node's parent; all 0x00 = a root node)\n  3. name:      read 1 byte = length N (in bytes), then read N bytes = UTF-8 text (the name)\n  4. value:     read 1 byte = type tag T, then read the content as listed below\n\nVALUE CONTENT BY TYPE TAG T:\n  T=0 empty:     read nothing = a container node (no value, children only)\n  T=1 integer:   read 8 bytes = signed 64-bit integer (big-endian)\n  T=2 float:     read 8 bytes = IEEE 754 double (big-endian)\n  T=3 boolean:   read 1 byte = 0x00 is false, 0x01 is true\n  T=4 text:      read 4 bytes = length M (big-endian), then read M bytes = UTF-8 text\n  T=5 reference: read 16 bytes = a UUID that points to another node's node_id (a link/edge)\n  T=6 blob:      read 8 bytes = length N (big-endian), then read N bytes = raw content\n\nEXAMPLES (hex; big-endian):\n  ENCODE (value -> bytes):\n    empty (T=0)                    -> 00\n    integer 2046 (T=1)             -> 01 00 00 00 00 00 00 07 fe\n    float 1.5 (T=2)                -> 02 3f f8 00 00 00 00 00 00\n    boolean true (T=3)             -> 03 01\n    text \"灯\" (T=4)                -> 04 00 00 00 03 e7 81 af\n    reference to a node_id (T=5)   -> 05 <16 bytes of the target node_id>\n    blob of 3 raw bytes (T=6)      -> 06 00 00 00 00 00 00 00 03 <3 bytes>\n  DECODE (bytes -> value), reverse of the above:\n    00                              -> empty\n    01 00 00 00 00 00 00 07 fe      -> integer 2046\n    04 00 00 00 03 e7 81 af         -> text \"灯\"\n    05 <16 bytes>                   -> reference to that node_id\n  A name field \"灯\" (UTF-8 e7 81 af) -> 03 e7 81 af   (1-byte length, then UTF-8)\n\nAfter reading a node's value, the node is complete; the next node (if any) starts\nimmediately at the next byte. Read nodes until end of file.\n";

/// A character takes at most four bytes.
pub proof fn lemma_utf8_len(s: Seq<char>)
    ensures
        encode_utf8(s).len() <= 4 * s.len(),
    decreases s.len(),
{
    if s.len() > 0 {
        lemma_utf8_len(s.drop_first());
        assert(encode_scalar(s[0] as u32).len() <= 4);
    }
}

/// The length of the text fits the length field of a file.
pub proof fn lemma_header_fits()
    ensures
        encode_utf8(HEADER@).len() < 0x1_0000_0000,
{
    reveal_strlit("XiRang Tree v1.0\n\nThis file stores a XiRang node tree in binary. All multi-byte integers are big-endian\n(most significant byte first; e.g. the bytes 00 00 00 2A represent the integer 42).\n\nFILE LAYOUT:\n  - The file begins with a fixed 5-byte prefix: magic \"XRNG\" (4 ASCII bytes) + a 1-byte\n    format version (currently 1).\n  - After the prefix: 4 bytes = the byte-length L of this text header (big-endian),\n    then L bytes of UTF-8 text (this documentation, NOT node data).\n  - The nodes begin at offset (5 + 4 + L).\n\nHOW TO PARSE A NODE:\nEach node = 4 fields, read in this exact order:\n  1. node_id:   read 16 bytes = a UUID (unique id of this node)\n  2. parent_id: read 16 bytes = a UUID (id of this node's parent; all 0x00 = a root node)\n  3. name:      read 1 byte = length N (in bytes), then read N bytes = UTF-8 text (the name)\n  4. value:     read 1 byte = type tag T, then read the content as listed below\n\nVALUE CONTENT BY TYPE TAG T:\n  T=0 empty:     read nothing = a container node (no value, children only)\n  T=1 integer:   read 8 bytes = signed 64-bit integer (big-endian)\n  T=2 float:     read 8 bytes = IEEE 754 double (big-endian)\n  T=3 boolean:   read 1 byte = 0x00 is false, 0x01 is true\n  T=4 text:      read 4 bytes = length M (big-endian), then read M bytes = UTF-8 text\n  T=5 reference: read 16 bytes = a UUID that points to another node's node_id (a link/edge)\n  T=6 blob:      read 8 bytes = length N (big-endian), then read N bytes = raw content\n\nEXAMPLES (hex; big-endian):\n  ENCODE (value -> bytes):\n    empty (T=0)                    -> 00\n    integer 2046 (T=1)             -> 01 00 00 00 00 00 00 07 fe\n    float 1.5 (T=2)                -> 02 3f f8 00 00 00 00 00 00\n    boolean true (T=3)             -> 03 01\n    text \"灯\" (T=4)                -> 04 00 00 00 03 e7 81 af\n    reference to a node_id (T=5)   -> 05 <16 bytes of the target node_id>\n    blob of 3 raw bytes (T=6)      -> 06 00 00 00 00 00 00 00 03 <3 bytes>\n  DECODE (bytes -> value), reverse of the above:\n    00                              -> empty\n    01 00 00 00 00 00 00 07 fe      -> integer 2046\n    04 00 00 00 03 e7 81 af         -> text \"灯\"\n    05 <16 bytes>                   -> reference to that node_id\n  A name field \"灯\" (UTF-8 e7 81 af) -> 03 e7 81 af   (1-byte length, then UTF-8)\n\nAfter reading a node's value, the node is complete; the next node (if any) starts\nimmediately at the next byte. Read nodes until end of file.\n");
    lemma_utf8_len(HEADER@);
}

} // verus!
