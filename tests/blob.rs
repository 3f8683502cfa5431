use fdt_serde::{align_up_u32, Deserializer, DeviceTree, Error, ErrorType, Header, Kind, Tag};

fn word(v: u32) -> Vec<u8> {
    v.to_be_bytes().to_vec()
}

fn header_words(structure_len: usize, strings_len: usize) -> Vec<u32> {
    let off_struct = 40u32;
    let off_strings = off_struct + structure_len as u32;
    let total = off_strings + strings_len as u32;
    vec![
        0xD00DFEED,
        total,
        off_struct,
        off_strings,
        40,
        17,
        16,
        0,
        strings_len as u32,
        structure_len as u32,
    ]
}

fn assemble(words: &[u32], rest: &[u8]) -> Vec<u8> {
    let mut out = Vec::new();
    for w in words {
        out.extend(word(*w));
    }
    out.extend_from_slice(rest);
    out
}

fn blob(structure: &[u8], strings: &[u8]) -> Vec<u8> {
    let words = header_words(structure.len(), strings.len());
    let mut rest = structure.to_vec();
    rest.extend_from_slice(strings);
    assemble(&words, &rest)
}

fn pad(mut v: Vec<u8>) -> Vec<u8> {
    while v.len() % 4 != 0 {
        v.push(0);
    }
    v
}

fn begin(name: &str) -> Vec<u8> {
    let mut v = word(1);
    v.extend_from_slice(name.as_bytes());
    v.push(0);
    pad(v)
}

fn prop(value: &[u8], name_offset: u32) -> Vec<u8> {
    let mut v = word(3);
    v.extend(word(value.len() as u32));
    v.extend(word(name_offset));
    v.extend_from_slice(value);
    pad(v)
}

fn end() -> Vec<u8> {
    word(2)
}

fn nop() -> Vec<u8> {
    word(4)
}

fn fin() -> Vec<u8> {
    word(9)
}

fn cat(parts: &[Vec<u8>]) -> Vec<u8> {
    parts.concat()
}

fn typed_at(e: &Error) -> (ErrorType, usize) {
    match e {
        Error::Typed { error_type, file_index } => (*error_type, *file_index),
        Error::Custom(m) => panic!("unexpected custom error {}", m),
    }
}

/// The tokens of a blob, without offsets, up to the end or the first error.
fn token_list(bytes: &[u8]) -> (Vec<Tag<'_>>, Option<Error>) {
    let tree = DeviceTree::from_bytes(bytes).unwrap();
    let mut tags = tree.tags();
    let mut out = Vec::new();
    loop {
        match tags.next() {
            Some(Ok((t, _))) => out.push(t),
            Some(Err(e)) => return (out, Some(e)),
            None => return (out, None),
        }
    }
}

fn header_error(words: &[u32]) -> (ErrorType, usize) {
    let bytes = assemble(words, &[0u8; 64]);
    typed_at(&DeviceTree::from_bytes(&bytes).unwrap_err())
}

#[test]
fn bad_magic_is_reported_at_offset_zero() {
    let mut w = header_words(16, 8);
    w[0] = 0x12345678;
    let (t, i) = header_error(&w);
    assert_eq!(t, ErrorType::InvalidMagic { wrong_magic: 0x12345678 });
    assert_eq!(i, 0);
}

#[test]
fn newer_version_is_reported_at_its_field() {
    let mut w = header_words(16, 8);
    w[6] = 18;
    let (t, i) = header_error(&w);
    assert_eq!(
        t,
        ErrorType::IncompatibleVersion { last_comp_version: 18, library_supported_version: 17 }
    );
    assert_eq!(i, 24);
}

#[test]
fn short_total_size_is_reported_at_its_field() {
    let mut w = header_words(16, 8);
    w[1] = 39;
    let (t, i) = header_error(&w);
    assert_eq!(t, ErrorType::HeaderTooShort { header_length: 39, at_least_length: 40 });
    assert_eq!(i, 4);
}

#[test]
fn structure_offset_inside_header_is_reported() {
    let mut w = header_words(16, 8);
    w[2] = 20;
    let (t, i) = header_error(&w);
    assert!(matches!(
        t,
        ErrorType::StructureIndex {
            current_index: 20,
            bound_index: 40,
            structure_or_string: true,
            overflow_or_underflow: false
        }
    ));
    assert_eq!(i, 8);
}

#[test]
fn structure_block_past_total_size_is_reported() {
    let mut w = header_words(16, 8);
    w[9] = 100;
    let (t, i) = header_error(&w);
    assert!(matches!(
        t,
        ErrorType::StructureIndex {
            current_index: 140,
            structure_or_string: true,
            overflow_or_underflow: true,
            ..
        }
    ));
    assert_eq!(i, 36);
}

#[test]
fn strings_offset_inside_header_is_reported() {
    let mut w = header_words(16, 8);
    w[3] = 8;
    let (t, i) = header_error(&w);
    assert!(matches!(
        t,
        ErrorType::StructureIndex {
            current_index: 8,
            bound_index: 40,
            structure_or_string: false,
            overflow_or_underflow: false
        }
    ));
    assert_eq!(i, 12);
}

#[test]
fn string_table_is_bounded_by_its_own_offset() {
    // The table starts at 56 and claims 12 bytes of a 64-byte blob: the structure offset
    // plus that size would fit, the table itself does not.
    let mut w = header_words(16, 8);
    w[8] = 12;
    let (t, i) = header_error(&w);
    assert!(matches!(
        t,
        ErrorType::StructureIndex {
            current_index: 68,
            bound_index: 64,
            structure_or_string: false,
            overflow_or_underflow: true
        }
    ));
    assert_eq!(i, 32);
}

#[test]
fn buffer_shorter_than_total_size_is_refused() {
    let bytes = blob(&cat(&[begin(""), end(), fin()]), &[]);
    let short = &bytes[..bytes.len() - 4];
    let (t, i) = typed_at(&DeviceTree::from_bytes(short).unwrap_err());
    assert_eq!(t, ErrorType::SliceEofUnexpected { expected_length: 56, remaining_length: 52 });
    assert_eq!(i, 4);
}

#[test]
fn header_fields_are_read_big_endian() {
    let bytes = blob(&cat(&[begin(""), end(), fin()]), b"ab\0");
    let h = Header::parse(&bytes);
    assert_eq!(h.magic, 0xD00DFEED);
    assert_eq!(h.total_size, 59);
    assert_eq!(h.off_dt_strings, 56);
    assert_eq!(h.size_dt_strings, 3);
    assert_eq!(h.size_dt_struct, 16);
    assert!(h.validate().is_ok());
}

#[test]
fn minimal_blob_decodes_to_an_empty_map() {
    let bytes = blob(&cat(&[begin(""), end(), fin()]), &[]);
    let mut d = Deserializer::from_bytes(&bytes).unwrap();
    assert_eq!(d.peek_kind().unwrap(), Kind::Node);
    assert_eq!(d.deserialize_identifier().unwrap(), "");
    d.begin_map().unwrap();
    assert_eq!(d.next_key().unwrap(), None);
    d.end_map().unwrap();
    assert_eq!(d.next_tag().unwrap(), None);
}

#[test]
fn property_values_decode_by_length() {
    let structure = cat(&[
        begin("root"),
        prop(&[], 0),
        prop(&[0x12, 0x34, 0x56, 0x78], 5),
        prop(&[1, 2, 3], 0),
        end(),
        fin(),
    ]);
    let bytes = blob(&structure, b"flag\0cells\0");
    let mut d = Deserializer::from_bytes(&bytes).unwrap();
    d.begin_map().unwrap();
    assert_eq!(d.next_key().unwrap(), Some(&b"flag"[..]));
    assert_eq!(d.peek_kind().unwrap(), Kind::Bool);
    assert_eq!(d.deserialize_bool().unwrap(), true);
    assert_eq!(d.next_key().unwrap(), Some(&b"cells"[..]));
    assert_eq!(d.peek_kind().unwrap(), Kind::U32);
    assert_eq!(d.deserialize_u32().unwrap(), 0x12345678);
    assert_eq!(d.peek_kind().unwrap(), Kind::Bytes);
    assert_eq!(d.deserialize_bytes().unwrap(), &[1u8, 2, 3][..]);
    assert_eq!(d.next_key().unwrap(), None);
    d.end_map().unwrap();
}

#[test]
fn scalar_hooks_refuse_wrong_lengths() {
    let structure = cat(&[begin(""), prop(&[1, 2], 0), end(), fin()]);
    let bytes = blob(&structure, b"x\0");
    let mut d = Deserializer::from_bytes(&bytes).unwrap();
    d.begin_map().unwrap();
    let (t, i) = typed_at(&d.deserialize_u32().unwrap_err());
    assert_eq!(t, ErrorType::InvalidSerdeTypeLength { expected_length: 4 });
    assert_eq!(i, 48);
    let (t, _) = typed_at(&d.deserialize_bool().unwrap_err());
    assert_eq!(t, ErrorType::InvalidSerdeTypeLength { expected_length: 0 });
    assert_eq!(d.deserialize_bytes().unwrap(), &[1u8, 2][..]);
    assert_eq!(typed_at(&d.deserialize_u32().unwrap_err()), (ErrorType::UnexpectedTag, 64));
    assert_eq!(typed_at(&d.deserialize_bool().unwrap_err()), (ErrorType::UnexpectedTag, 64));
    assert_eq!(typed_at(&d.deserialize_bytes().unwrap_err()), (ErrorType::UnexpectedTag, 64));
    assert_eq!(typed_at(&d.deserialize_str().unwrap_err()), (ErrorType::UnexpectedTag, 64));
    assert_eq!(typed_at(&d.peek_kind().unwrap_err()), (ErrorType::UnexpectedTag, 64));
    assert_eq!(typed_at(&d.next_value().unwrap_err()), (ErrorType::UnexpectedTag, 64));
    assert_eq!(typed_at(&d.deserialize_ignored_any().unwrap_err()), (ErrorType::UnexpectedTag, 64));
}

#[test]
fn text_values_are_checked_as_utf8() {
    let structure = cat(&[begin("n\u{e9}"), prop(b"hi\0", 0), prop(&[0xff, 0xfe], 0), end(), fin()]);
    let bytes = blob(&structure, b"s\0");
    let mut d = Deserializer::from_bytes(&bytes).unwrap();
    assert_eq!(d.deserialize_identifier().unwrap(), "n\u{e9}");
    d.begin_map().unwrap();
    assert_eq!(typed_at(&d.deserialize_identifier().unwrap_err()), (ErrorType::UnexpectedTag, 48));
    assert_eq!(d.deserialize_str().unwrap(), "hi\0");
    let (t, i) = typed_at(&d.deserialize_str().unwrap_err());
    assert!(matches!(t, ErrorType::Utf8(_)));
    assert_eq!(i, 64);
}

#[test]
fn nops_do_not_change_the_tokens() {
    let strings = b"a\0";
    let plain = blob(&cat(&[begin("r"), prop(&[7, 7, 7, 7], 0), begin("c"), end(), end(), fin()]), strings);
    let padded = blob(
        &cat(&[
            nop(),
            begin("r"),
            nop(),
            nop(),
            prop(&[7, 7, 7, 7], 0),
            begin("c"),
            nop(),
            end(),
            end(),
            nop(),
            fin(),
        ]),
        strings,
    );
    let (a, ea) = token_list(&plain);
    let (b, eb) = token_list(&padded);
    assert_eq!(a, b);
    assert_eq!(a.len(), 5);
    assert!(ea.is_none() && eb.is_none());
    let mut d = Deserializer::from_bytes(&padded).unwrap();
    d.begin_map().unwrap();
    assert_eq!(d.deserialize_u32().unwrap(), 0x07070707);
}

#[test]
fn tokens_carry_the_offset_of_their_record() {
    let bytes = blob(&cat(&[nop(), begin("ab"), end(), fin()]), &[]);
    let tree = DeviceTree::from_bytes(&bytes).unwrap();
    let mut tags = tree.tags();
    assert_eq!(tags.next().unwrap().unwrap(), (Tag::Begin(b"ab"), 44));
    assert_eq!(tags.next().unwrap().unwrap(), (Tag::End, 52));
    assert!(tags.next().is_none());
    assert!(tags.next().is_none());
}

#[test]
fn ignoring_a_property_consumes_one_token() {
    let structure = cat(&[begin(""), prop(&[1], 0), prop(&[], 0), end(), fin()]);
    let bytes = blob(&structure, b"p\0");
    let mut d = Deserializer::from_bytes(&bytes).unwrap();
    d.begin_map().unwrap();
    d.deserialize_ignored_any().unwrap();
    assert_eq!(d.deserialize_bool().unwrap(), true);
}

#[test]
fn ignoring_a_leaf_node_stops_after_its_end() {
    let structure = cat(&[begin(""), begin("leaf"), prop(&[1], 0), end(), prop(&[], 0), end(), fin()]);
    let bytes = blob(&structure, b"p\0");
    let mut d = Deserializer::from_bytes(&bytes).unwrap();
    d.begin_map().unwrap();
    d.deserialize_ignored_any().unwrap();
    assert_eq!(d.next_key().unwrap(), Some(&b"p"[..]));
    assert_eq!(d.deserialize_bool().unwrap(), true);
    d.end_map().unwrap();
}

#[test]
fn ignoring_nested_nodes_tracks_depth() {
    let structure = cat(&[
        begin(""),
        begin("a"),
        begin("b"),
        prop(&[], 0),
        end(),
        begin("c"),
        begin("d"),
        end(),
        end(),
        end(),
        begin("after"),
        end(),
        end(),
        fin(),
    ]);
    let bytes = blob(&structure, b"p\0");
    let mut d = Deserializer::from_bytes(&bytes).unwrap();
    d.begin_map().unwrap();
    d.deserialize_ignored_any().unwrap();
    assert_eq!(d.deserialize_identifier().unwrap(), "after");
    d.deserialize_ignored_any().unwrap();
    assert_eq!(d.next_key().unwrap(), None);
    d.end_map().unwrap();
}

#[test]
fn ignoring_an_unclosed_node_fails() {
    let structure = cat(&[begin(""), begin("a"), end(), fin()]);
    let bytes = blob(&structure, &[]);
    let mut d = Deserializer::from_bytes(&bytes).unwrap();
    let (t, _) = typed_at(&d.deserialize_ignored_any().unwrap_err());
    assert_eq!(t, ErrorType::NoRemainingTags);
}

#[test]
fn name_offset_past_the_table_fails() {
    let structure = cat(&[begin(""), prop(&[1, 2, 3, 4], 9), end(), fin()]);
    let bytes = blob(&structure, b"abc\0");
    let (tokens, err) = token_list(&bytes);
    assert_eq!(tokens.len(), 1);
    let (t, i) = typed_at(&err.unwrap());
    assert_eq!(t, ErrorType::TableStringOffset { given_offset: 9, bound_offset: 4 });
    assert_eq!(i, 64);
}

#[test]
fn name_without_terminator_fails() {
    let structure = cat(&[begin(""), prop(&[], 1), end(), fin()]);
    let bytes = blob(&structure, b"abc");
    let (_, err) = token_list(&bytes);
    let (t, i) = typed_at(&err.unwrap());
    assert_eq!(t, ErrorType::TableStringOffset { given_offset: 1, bound_offset: 3 });
    assert_eq!(i, 60);
}

#[test]
fn value_past_the_block_fails() {
    let mut structure = cat(&[begin("")]);
    structure.extend(word(3));
    structure.extend(word(100));
    structure.extend(word(0));
    structure.extend([0u8; 8]);
    let bytes = blob(&structure, b"a\0");
    let (_, err) = token_list(&bytes);
    let (t, i) = typed_at(&err.unwrap());
    assert_eq!(t, ErrorType::SliceEofUnexpected { expected_length: 100, remaining_length: 8 });
    assert_eq!(i, 60);
}

#[test]
fn align_up_rounds_to_four() {
    assert_eq!(align_up_u32(0), 0);
    assert_eq!(align_up_u32(8), 8);
    assert_eq!(align_up_u32(9), 12);
    assert_eq!(align_up_u32(10), 12);
    assert_eq!(align_up_u32(11), 12);
    assert_eq!(align_up_u32(12), 12);
}

#[test]
fn names_and_values_are_padded_to_four() {
    // Names of 3, 4, 5 and 6 bytes end (with their NUL) 0, 1, 2 and 3 bytes past a boundary.
    for name in ["abc", "abcd", "abcde", "abcdef"] {
        let bytes = blob(&cat(&[begin(name), end(), fin()]), &[]);
        let tree = DeviceTree::from_bytes(&bytes).unwrap();
        let mut tags = tree.tags();
        tags.next().unwrap().unwrap();
        let expected = 40 + 4 + (name.len() + 1 + 3) / 4 * 4;
        assert_eq!(tags.next().unwrap().unwrap(), (Tag::End, expected));
    }
    for len in 0..6usize {
        let value = vec![5u8; len];
        let bytes = blob(&cat(&[prop(&value, 0), end(), fin()]), b"v\0");
        let tree = DeviceTree::from_bytes(&bytes).unwrap();
        let mut tags = tree.tags();
        assert_eq!(tags.next().unwrap().unwrap().0, Tag::Prop(&value, b"v"));
        let expected = 40 + 12 + (len + 3) / 4 * 4;
        assert_eq!(tags.next().unwrap().unwrap(), (Tag::End, expected));
    }
}

#[test]
fn truncated_node_reports_tag_eof() {
    let structure = cat(&[begin(""), prop(&[], 0), vec![0, 0]]);
    let bytes = blob(&structure, b"p\0");
    let mut d = Deserializer::from_bytes(&bytes).unwrap();
    d.begin_map().unwrap();
    assert_eq!(d.next_key().unwrap(), Some(&b"p"[..]));
    d.next_value().unwrap();
    assert!(d.deserialize_bool().unwrap());
    let (t, i) = typed_at(&d.next_key().unwrap_err());
    assert_eq!(t, ErrorType::TagEofUnexpected { current_index: 20, bound_index: 22 });
    assert_eq!(i, 60);
    let again = d.end_map().unwrap_err();
    assert_eq!(typed_at(&again).0, ErrorType::TagEofUnexpected { current_index: 20, bound_index: 22 });
}

#[test]
fn invalid_tag_id_fails() {
    let bytes = blob(&cat(&[begin(""), word(7), end(), fin()]), &[]);
    let (tokens, err) = token_list(&bytes);
    assert_eq!(tokens.len(), 1);
    let (t, i) = typed_at(&err.unwrap());
    assert_eq!(t, ErrorType::InvalidTagId { wrong_id: 7 });
    assert_eq!(i, 52);
}

#[test]
fn unterminated_node_name_fails() {
    let mut structure = word(1);
    structure.extend(b"abc");
    let bytes = blob(&structure, &[]);
    let (_, err) = token_list(&bytes);
    let (t, i) = typed_at(&err.unwrap());
    assert_eq!(t, ErrorType::StringEofUnexpected);
    assert_eq!(i, 47);
}

#[test]
fn map_hooks_check_their_delimiters() {
    let bytes = blob(&cat(&[prop(&[], 0), begin(""), fin()]), b"p\0");
    let mut d = Deserializer::from_bytes(&bytes).unwrap();
    assert_eq!(typed_at(&d.begin_map().unwrap_err()).0, ErrorType::ExpectStructBegin);
    assert_eq!(typed_at(&d.end_map().unwrap_err()).0, ErrorType::ExpectStructEnd);
    assert_eq!(typed_at(&d.end_map().unwrap_err()).0, ErrorType::ExpectStructEnd);
    assert_eq!(typed_at(&d.next_key().unwrap_err()).0, ErrorType::NoRemainingTags);
    assert!(d.deserialize_ignored_any().is_ok());
}

#[test]
fn error_constructors_fill_their_fields() {
    assert_eq!(
        Error::invalid_magic(1, 0),
        Error::Typed { error_type: ErrorType::InvalidMagic { wrong_magic: 1 }, file_index: 0 }
    );
    assert_eq!(
        Error::string_index_overflow(5, 4, 32),
        Error::Typed {
            error_type: ErrorType::StructureIndex {
                current_index: 5,
                bound_index: 4,
                structure_or_string: false,
                overflow_or_underflow: true
            },
            file_index: 32
        }
    );
    assert_eq!(typed_at(&Error::no_remaining_tags()), (ErrorType::NoRemainingTags, 0));
    assert_eq!(Error::custom("m".to_string()), Error::Custom("m".to_string()));
    let e = Error::tag_eof_unexpected(1, 2, 3);
    assert_eq!(e.duplicate(), e);
}

#[test]
fn nops_keep_the_kind_of_a_stream_error() {
    let plain = blob(&cat(&[begin("r"), prop(&[1], 0), vec![0, 0]]), b"a\0");
    let padded = blob(&cat(&[begin("r"), nop(), prop(&[1], 0), nop(), vec![0, 0]]), b"a\0");
    let (a, ea) = token_list(&plain);
    let (b, eb) = token_list(&padded);
    assert_eq!(a, b);
    let (ta, ia) = typed_at(&ea.unwrap());
    let (tb, ib) = typed_at(&eb.unwrap());
    assert!(matches!(ta, ErrorType::TagEofUnexpected { .. }));
    assert!(matches!(tb, ErrorType::TagEofUnexpected { .. }));
    assert_eq!(ib, ia + 8);
}
