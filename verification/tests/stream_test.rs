//! The flat stream, the scan behind it, and the normalizer.

use editorconfig_ini::{
	normalize, parse, parse_to_vec, scan, Item, ParseError, Span, Token, TokenTypes,
};

#[test]
fn uint32array() {
	let expected: Vec<u32> = vec![0, 0, 4, 1, 5, 9, 2, 11, 12, 0, 14, 15, 1, 16, 17];
	match parse_to_vec(String::from("root=true\n[a]\nb=c").as_bytes()) {
		Ok(v) => assert_eq!(v, expected),
		Err(_) => assert!(false),
	}
}

#[test]
fn tags_are_stable() {
	assert_eq!(TokenTypes::Key.code(), 0);
	assert_eq!(TokenTypes::Value.code(), 1);
	assert_eq!(TokenTypes::Section.code(), 2);
	assert_eq!(TokenTypes::CommentIndicator.code(), 3);
	assert_eq!(TokenTypes::CommentValue.code(), 4);
	assert_eq!(TokenTypes::Key as u32, 0);
	assert_eq!(TokenTypes::CommentValue as u32, 4);
}

#[test]
fn comment_gives_two_triples() {
	assert_eq!(
		parse_to_vec(b"  ; note ").unwrap(),
		vec![3, 2, 3, 4, 4, 9]
	);
	assert_eq!(parse_to_vec(b"#x").unwrap(), vec![3, 0, 1, 4, 1, 2]);
	assert_eq!(parse_to_vec(b"#").unwrap(), vec![3, 0, 1, 4, 1, 1]);
}

#[test]
fn section_gives_one_triple_without_brackets() {
	assert_eq!(parse_to_vec(b" [ab]  ").unwrap(), vec![2, 2, 4]);
}

#[test]
fn blank_lines_give_no_triples() {
	assert_eq!(parse_to_vec(b"").unwrap(), Vec::<u32>::new());
	assert_eq!(parse_to_vec(b"\n \n\t\r\n").unwrap(), Vec::<u32>::new());
}

#[test]
fn offsets_count_from_the_start_of_the_buffer() {
	// byte-order mark, then carriage returns before the line feeds
	let text = "\u{feff}a=b\r\nc = d\r\n";
	assert_eq!(
		parse_to_vec(text.as_bytes()).unwrap(),
		vec![0, 3, 4, 1, 5, 6, 0, 8, 9, 1, 12, 13]
	);
}

#[test]
fn stream_ends_before_a_header_that_is_not_closed() {
	assert_eq!(parse_to_vec(b"[foo").unwrap(), Vec::<u32>::new());
	assert_eq!(
		parse_to_vec(b"a=b\n[foo\nc=d").unwrap(),
		vec![0, 0, 1, 1, 2, 3]
	);
	// the tree path reports the same line as an error
	assert_eq!(
		parse(b"a=b\n[foo\nc=d").unwrap_err(),
		ParseError::UnterminatedSection { line: 2 }
	);
}

#[test]
fn stream_fails_where_the_tree_fails() {
	assert_eq!(
		parse_to_vec(&[b'a', b'=', 0xff]).unwrap_err(),
		ParseError::Encoding
	);
	let long_key = format!("{}=v", "k".repeat(51));
	assert_eq!(
		parse_to_vec(long_key.as_bytes()).unwrap_err(),
		ParseError::KeyTooLong { line: 1 }
	);
	let long_value = format!("\nk={}", "v".repeat(256));
	assert_eq!(
		parse_to_vec(long_value.as_bytes()).unwrap_err(),
		ParseError::ValueTooLong { line: 2 }
	);
	assert_eq!(
		parse_to_vec(b"a=b\nplain").unwrap_err(),
		ParseError::UnexpectedInput { line: 2 }
	);
	// a fault before the open header still counts
	assert_eq!(
		parse_to_vec(b"plain\n[foo").unwrap_err(),
		ParseError::UnexpectedInput { line: 1 }
	);
}

#[test]
fn every_pair_of_the_tree_is_in_the_stream() {
	let text = "\u{feff}root = true\r\n# c\n[one]\n  a = b c \n[two]\nключ=значение\n";
	let buf = text.as_bytes();
	let ast = parse(buf).unwrap();
	let stream = parse_to_vec(buf).unwrap();
	let mut pairs: Vec<(String, String)> = Vec::new();
	for item in &ast.body {
		match item {
			Item::Pair(pair) => pairs.push((pair.key.clone(), pair.value.clone())),
			Item::Section(section) => {
				for inner in &section.body {
					if let Item::Pair(pair) = inner {
						pairs.push((pair.key.clone(), pair.value.clone()));
					}
				}
			}
			Item::Comment(_) => {}
		}
	}
	assert_eq!(pairs.len(), 3);
	let mut found = 0;
	let mut j = 0;
	while j + 6 <= stream.len() {
		if stream[j] == TokenTypes::Key.code() {
			assert_eq!(stream[j + 3], TokenTypes::Value.code());
			let key = &buf[stream[j + 1] as usize..stream[j + 2] as usize];
			let value = &buf[stream[j + 4] as usize..stream[j + 5] as usize];
			assert_eq!(key, pairs[found].0.as_bytes());
			assert_eq!(value, pairs[found].1.as_bytes());
			found += 1;
			j += 6;
		} else {
			j += 3;
		}
	}
	assert_eq!(found, 3);
}

#[test]
fn scan_gives_tokens_with_offsets() {
	let result = scan(b"a=b\n[s]\n# c");
	assert_eq!(result.stop, None);
	assert_eq!(
		result.tokens,
		vec![
			Token::Pair {
				key: Span { start: 0, end: 1 },
				value: Span { start: 2, end: 3 },
			},
			Token::Section {
				name: Span { start: 5, end: 6 },
			},
			Token::Comment {
				indicator: 8,
				value: Span { start: 10, end: 11 },
			},
		]
	);
}

#[test]
fn scan_stops_at_the_first_fault() {
	let result = scan(b"a=b\noops\nc=d");
	assert_eq!(result.stop, Some(ParseError::UnexpectedInput { line: 2 }));
	assert_eq!(result.tokens.len(), 1);
}

// The normalizer

#[test]
fn normalize_removes_the_byte_order_mark() {
	assert_eq!(normalize("\u{feff}a=b".as_bytes()).unwrap(), b"a=b");
	assert_eq!(normalize(b"a=b").unwrap(), b"a=b");
	assert_eq!(
		normalize("\u{feff}\u{feff}a".as_bytes()).unwrap(),
		"\u{feff}a".as_bytes()
	);
}

#[test]
fn normalize_turns_carriage_return_line_feed_into_line_feed() {
	assert_eq!(normalize(b"[a]\r\nb=c\r\n").unwrap(), b"[a]\nb=c\n");
	assert_eq!(normalize(b"\r\n\r\n").unwrap(), b"\n\n");
}

#[test]
fn normalize_leaves_a_lone_carriage_return() {
	assert_eq!(normalize(b"a\rb").unwrap(), b"a\rb");
	assert_eq!(normalize(b"a\r").unwrap(), b"a\r");
	assert_eq!(normalize(b"a\r\r\nb").unwrap(), b"a\r\nb");
	assert_eq!(normalize(b"a\n\rb").unwrap(), b"a\n\rb");
}

#[test]
fn normalize_rejects_what_is_not_utf8() {
	assert_eq!(normalize(&[0xff]).unwrap_err(), ParseError::Encoding);
	assert_eq!(normalize(&[0xe2, 0x82]).unwrap_err(), ParseError::Encoding);
	assert_eq!(normalize(&[0xed, 0xa0, 0x80]).unwrap_err(), ParseError::Encoding);
}

#[test]
fn normalized_text_parses_into_the_same_tree() {
	for text in [
		"\u{feff}[a]\r\nb=c\r\n",
		"a=b\r\rc=d\r\n",
		"# x\r\n\r\n[s]\r\nk = v\r\n",
	] {
		let direct = parse(text.as_bytes()).unwrap();
		let normalized = normalize(text.as_bytes()).unwrap();
		let after = parse(&normalized).unwrap();
		assert_eq!(format!("{:?}", direct), format!("{:?}", after));
	}
}
