//! The tree that parsing builds, and the text that a tree turns into.

use editorconfig_ini::{
	parse, Comment, EditorConfigINIAST, Item, Pair, ParseError, Section, VERSION,
};

fn tree(contents: &str) -> EditorConfigINIAST {
	parse(contents.as_bytes()).unwrap()
}

fn pair_of(item: &Item) -> (&str, &str) {
	match item {
		Item::Pair(pair) => (pair.key.as_str(), pair.value.as_str()),
		other => panic!("not a pair: {:?}", other),
	}
}

fn comment_of(item: &Item) -> (char, &str) {
	match item {
		Item::Comment(comment) => (comment.indicator, comment.value.as_str()),
		other => panic!("not a comment: {:?}", other),
	}
}

fn section_of(item: &Item) -> &Section {
	match item {
		Item::Section(section) => section,
		other => panic!("not a section: {:?}", other),
	}
}

#[test]
fn pair_is_trimmed_around_equals() {
	let ast = tree("a = b");
	assert_eq!(ast.body.len(), 1);
	assert_eq!(pair_of(&ast.body[0]), ("a", "b"));
}

#[test]
fn pair_is_trimmed_at_both_ends_of_line() {
	let ast = tree("  a=b  ");
	assert_eq!(ast.body.len(), 1);
	assert_eq!(pair_of(&ast.body[0]), ("a", "b"));
}

#[test]
fn tabs_count_as_padding() {
	let ast = tree("\ta\t=\tb\t");
	assert_eq!(pair_of(&ast.body[0]), ("a", "b"));
}

#[test]
fn inner_spaces_of_key_and_value_stay() {
	let ast = tree("a b = c  d");
	assert_eq!(pair_of(&ast.body[0]), ("a b", "c  d"));
}

#[test]
fn empty_value_is_allowed() {
	let ast = tree("a=");
	assert_eq!(pair_of(&ast.body[0]), ("a", ""));
	assert_eq!(ast.to_string(), "a=\n");
}

#[test]
fn value_may_hold_equals() {
	let ast = tree("a=b=c");
	assert_eq!(pair_of(&ast.body[0]), ("a", "b=c"));
}

#[test]
fn escaped_equals_stays_in_key() {
	let ast = tree("a\\=b=c");
	assert_eq!(pair_of(&ast.body[0]), ("a\\=b", "c"));
	assert_eq!(ast.to_string(), "a\\=b=c\n");
}

#[test]
fn two_backslashes_do_not_escape() {
	let ast = tree("a\\\\=b");
	assert_eq!(pair_of(&ast.body[0]), ("a\\\\", "b"));
}

#[test]
fn escaped_indicator_stays_in_value() {
	let ast = tree("a=b\\;c");
	assert_eq!(ast.body.len(), 1);
	assert_eq!(pair_of(&ast.body[0]), ("a", "b\\;c"));
}

#[test]
fn comment_in_section_before_pair() {
	let ast = tree("[a]\n;b\nc=d");
	assert_eq!(ast.body.len(), 1);
	let section = section_of(&ast.body[0]);
	assert_eq!(section.name, "a");
	assert_eq!(section.body.len(), 2);
	assert_eq!(comment_of(&section.body[0]), (';', "b"));
	assert_eq!(pair_of(&section.body[1]), ("c", "d"));
}

#[test]
fn comment_loses_exactly_one_space() {
	let ast = tree("# one\n#  two\n#three\n#\ttab");
	assert_eq!(comment_of(&ast.body[0]), ('#', "one"));
	assert_eq!(comment_of(&ast.body[1]), ('#', " two"));
	assert_eq!(comment_of(&ast.body[2]), ('#', "three"));
	assert_eq!(comment_of(&ast.body[3]), ('#', "\ttab"));
}

#[test]
fn comment_keeps_what_follows_to_the_end_of_line() {
	let ast = tree("; a = b  ");
	assert_eq!(comment_of(&ast.body[0]), (';', "a = b  "));
}

#[test]
fn indented_comment() {
	let ast = tree("   # x");
	assert_eq!(comment_of(&ast.body[0]), ('#', "x"));
}

#[test]
fn prelude_comes_before_sections() {
	let ast = tree("root=true\n# top\n[one]\na=b\n[two]\n; c\nd=e\n");
	assert_eq!(ast.body.len(), 4);
	assert_eq!(pair_of(&ast.body[0]), ("root", "true"));
	assert_eq!(comment_of(&ast.body[1]), ('#', "top"));
	let one = section_of(&ast.body[2]);
	assert_eq!(one.name, "one");
	assert_eq!(one.body.len(), 1);
	assert_eq!(pair_of(&one.body[0]), ("a", "b"));
	let two = section_of(&ast.body[3]);
	assert_eq!(two.name, "two");
	assert_eq!(two.body.len(), 2);
	assert_eq!(comment_of(&two.body[0]), (';', "c"));
	assert_eq!(pair_of(&two.body[1]), ("d", "e"));
}

#[test]
fn sections_of_one_name_are_not_merged() {
	let ast = tree("[a]\nx=1\n[a]\ny=2\n");
	assert_eq!(ast.body.len(), 2);
	assert_eq!(section_of(&ast.body[0]).name, "a");
	assert_eq!(section_of(&ast.body[1]).name, "a");
	assert_eq!(pair_of(&section_of(&ast.body[0]).body[0]), ("x", "1"));
	assert_eq!(pair_of(&section_of(&ast.body[1]).body[0]), ("y", "2"));
}

#[test]
fn keys_are_not_deduplicated() {
	let ast = tree("a=1\na=2\n");
	assert_eq!(ast.body.len(), 2);
	assert_eq!(pair_of(&ast.body[0]), ("a", "1"));
	assert_eq!(pair_of(&ast.body[1]), ("a", "2"));
}

#[test]
fn empty_section() {
	let ast = tree("[a]\n[b]\n");
	assert_eq!(ast.body.len(), 2);
	assert_eq!(section_of(&ast.body[0]).body.len(), 0);
	assert_eq!(section_of(&ast.body[1]).body.len(), 0);
	assert_eq!(ast.to_string(), "[a]\n\n[b]\n");
}

#[test]
fn header_ends_at_the_last_bracket() {
	let ast = tree("[a]b]  ");
	assert_eq!(section_of(&ast.body[0]).name, "a]b");
}

#[test]
fn empty_input_is_an_empty_document() {
	let ast = tree("");
	assert_eq!(ast.body.len(), 0);
	assert_eq!(ast.to_string(), "");
}

#[test]
fn blank_lines_alone_are_an_empty_document() {
	let ast = tree("\n  \n\t\n\r\n");
	assert_eq!(ast.body.len(), 0);
}

#[test]
fn version_is_stamped() {
	let ast = tree("a=b");
	assert_eq!(ast.version, "0.1.0");
	assert_eq!(VERSION, "0.1.0");
}

#[test]
fn new_keeps_the_body() {
	let ast = EditorConfigINIAST::new(vec![Item::Pair(Pair {
		key: String::from("root"),
		value: String::from("true"),
	})]);
	assert_eq!(ast.version, "0.1.0");
	assert_eq!(ast.body.len(), 1);
	assert_eq!(pair_of(&ast.body[0]), ("root", "true"));
}

#[test]
fn non_ascii_text_is_kept() {
	let ast = tree("ключ = значение\n# заметка ✓\n[раздел 😀]\n");
	assert_eq!(pair_of(&ast.body[0]), ("ключ", "значение"));
	assert_eq!(comment_of(&ast.body[1]), ('#', "заметка ✓"));
	assert_eq!(section_of(&ast.body[2]).name, "раздел 😀");
	assert_eq!(
		ast.to_string(),
		"ключ=значение\n# заметка ✓\n\n[раздел 😀]\n"
	);
}

#[test]
fn lone_carriage_return_ends_a_line() {
	let ast = tree("a=b\rc=d");
	assert_eq!(ast.body.len(), 2);
	assert_eq!(pair_of(&ast.body[0]), ("a", "b"));
	assert_eq!(pair_of(&ast.body[1]), ("c", "d"));
}

// Errors

#[test]
fn invalid_utf8_is_an_encoding_error() {
	assert_eq!(parse(&[b'a', b'=', 0xff]).unwrap_err(), ParseError::Encoding);
	assert_eq!(parse(&[0xc3]).unwrap_err(), ParseError::Encoding);
	assert_eq!(
		parse(&[0xef, 0xbb, 0xbf, 0x80]).unwrap_err(),
		ParseError::Encoding
	);
}

#[test]
fn encoding_is_checked_before_lines() {
	let mut bytes = b"[open\n".to_vec();
	bytes.push(0xff);
	assert_eq!(parse(&bytes).unwrap_err(), ParseError::Encoding);
}

#[test]
fn unterminated_header_is_an_error() {
	assert_eq!(
		parse(b"[foo").unwrap_err(),
		ParseError::UnterminatedSection { line: 1 }
	);
	assert_eq!(
		parse(b"a=b\n\n[foo\nc=d").unwrap_err(),
		ParseError::UnterminatedSection { line: 3 }
	);
	assert_eq!(
		parse(b"[").unwrap_err(),
		ParseError::UnterminatedSection { line: 1 }
	);
}

#[test]
fn text_behind_the_closing_bracket_is_an_error() {
	assert_eq!(
		parse(b"[a] x").unwrap_err(),
		ParseError::UnterminatedSection { line: 1 }
	);
}

#[test]
fn empty_brackets_are_a_section_without_a_name() {
	let ast = tree("[]");
	assert_eq!(section_of(&ast.body[0]).name, "");
	assert_eq!(ast.to_string(), "[]\n");
}

#[test]
fn line_without_equals_is_unexpected() {
	assert_eq!(
		parse(b"a=b\nhello\n").unwrap_err(),
		ParseError::UnexpectedInput { line: 2 }
	);
	assert_eq!(
		parse(b"a\\=b").unwrap_err(),
		ParseError::UnexpectedInput { line: 1 }
	);
}

#[test]
fn lines_are_counted_once_for_carriage_return_and_line_feed() {
	assert_eq!(
		parse(b"a=b\r\n\r\nxyz").unwrap_err(),
		ParseError::UnexpectedInput { line: 3 }
	);
	assert_eq!(
		parse(b"a=b\r\rxyz").unwrap_err(),
		ParseError::UnexpectedInput { line: 3 }
	);
}

#[test]
fn error_line_accessor() {
	assert_eq!(ParseError::Encoding.line(), None);
	assert_eq!(ParseError::KeyTooLong { line: 7 }.line(), Some(7));
	assert_eq!(ParseError::ValueTooLong { line: 8 }.line(), Some(8));
	assert_eq!(ParseError::UnterminatedSection { line: 9 }.line(), Some(9));
	assert_eq!(ParseError::UnexpectedInput { line: 10 }.line(), Some(10));
}

// Limits

#[test]
fn key_of_50_bytes_parses() {
	let key = "k".repeat(50);
	let ast = tree(&format!("{}=v", key));
	assert_eq!(pair_of(&ast.body[0]), (key.as_str(), "v"));
}

#[test]
fn key_of_51_bytes_fails() {
	let text = format!("a=b\n{}=v", "k".repeat(51));
	assert_eq!(
		parse(text.as_bytes()).unwrap_err(),
		ParseError::KeyTooLong { line: 2 }
	);
}

#[test]
fn value_of_255_bytes_parses() {
	let value = "v".repeat(255);
	let ast = tree(&format!("k={}", value));
	assert_eq!(pair_of(&ast.body[0]), ("k", value.as_str()));
}

#[test]
fn value_of_256_bytes_fails() {
	let text = format!("k={}", "v".repeat(256));
	assert_eq!(
		parse(text.as_bytes()).unwrap_err(),
		ParseError::ValueTooLong { line: 1 }
	);
}

#[test]
fn limits_count_bytes_after_trimming() {
	let text = format!("   {}   =   {}   ", "k".repeat(50), "v".repeat(255));
	assert!(parse(text.as_bytes()).is_ok());
	// 26 characters of two bytes each
	let text = format!("{}=v", "é".repeat(26));
	assert_eq!(
		parse(text.as_bytes()).unwrap_err(),
		ParseError::KeyTooLong { line: 1 }
	);
}

#[test]
fn key_limit_is_reported_before_value_limit() {
	let text = format!("{}={}", "k".repeat(51), "v".repeat(256));
	assert_eq!(
		parse(text.as_bytes()).unwrap_err(),
		ParseError::KeyTooLong { line: 1 }
	);
}

#[test]
fn section_name_has_no_limit() {
	let name = "n".repeat(1000);
	let ast = tree(&format!("[{}]", name));
	assert_eq!(section_of(&ast.body[0]).name, name);
}

// Byte-order mark and line endings

#[test]
fn byte_order_mark_makes_no_difference() {
	let with = parse("\u{feff}a=b".as_bytes()).unwrap();
	let without = parse(b"a=b").unwrap();
	assert_eq!(format!("{:?}", with), format!("{:?}", without));
}

#[test]
fn carriage_return_before_line_feed_makes_no_difference() {
	let with = parse(b"[a]\r\nb=c").unwrap();
	let without = parse(b"[a]\nb=c").unwrap();
	assert_eq!(format!("{:?}", with), format!("{:?}", without));
}

#[test]
fn only_one_byte_order_mark_is_removed() {
	let ast = tree("\u{feff}\u{feff}a=b");
	assert_eq!(pair_of(&ast.body[0]), ("\u{feff}a", "b"));
	// the mark that stayed in the key is taken for a mark the next time
	let again = tree(&ast.to_string());
	assert_eq!(pair_of(&again.body[0]), ("a", "b"));
}

// Serializing

#[test]
fn comment_to_string() {
	let comment = Comment {
		indicator: '#',
		value: String::from("octothorpe"),
	};
	assert_eq!(comment.to_string(), "# octothorpe\n");
	let comment = Comment {
		indicator: ';',
		value: String::from("semi-colon"),
	};
	assert_eq!(comment.to_string(), "; semi-colon\n");
}

#[test]
fn comment_with_wide_indicator() {
	let indicators = [
		'é', '€', '😀', '\u{7f}', '\u{80}', '\u{7ff}', '\u{800}', '\u{ffff}', '\u{10000}',
		'\u{10ffff}',
	];
	for indicator in indicators {
		let comment = Comment {
			indicator,
			value: String::from("x"),
		};
		assert_eq!(comment.to_string(), format!("{} x\n", indicator));
	}
}

#[test]
fn pair_to_string() {
	let pair = Pair {
		key: String::from("left"),
		value: String::from("right"),
	};
	assert_eq!(pair.to_string(), "left=right\n");
}

#[test]
fn pair_to_string_trims() {
	let pair = Pair {
		key: String::from("  left\t"),
		value: String::from("\t right  "),
	};
	assert_eq!(pair.to_string(), "left=right\n");
	let pair = Pair {
		key: String::from("   "),
		value: String::from(""),
	};
	assert_eq!(pair.to_string(), "=\n");
}

#[test]
fn pair_to_string_trims_every_white_space() {
	let pair = Pair {
		key: String::from("a"),
		value: String::from("b\u{c}"),
	};
	assert_eq!(pair.to_string(), "a=b\n");
	let white = [
		'\u{9}', '\u{a}', '\u{b}', '\u{c}', '\u{d}', '\u{20}', '\u{85}', '\u{a0}', '\u{1680}',
		'\u{2000}', '\u{2003}', '\u{200a}', '\u{2028}', '\u{2029}', '\u{202f}', '\u{205f}',
		'\u{3000}',
	];
	for c in white {
		let pair = Pair {
			key: format!("{}{}left{}", c, c, c),
			value: format!("{}ri{}ght{}{}", c, c, c, c),
		};
		assert_eq!(pair.to_string(), format!("left=ri{}ght\n", c));
	}
	// what is no white space stays
	for c in ['\u{200b}', '\u{feff}', '\u{180e}', '\u{1f}', '\u{0}'] {
		let pair = Pair {
			key: format!("{}k{}", c, c),
			value: format!("{}v{}", c, c),
		};
		assert_eq!(pair.to_string(), format!("{}k{}={}v{}\n", c, c, c, c));
	}
}

#[test]
fn every_character_is_trimmed_or_kept_as_listed() {
	let listed = |c: char| {
		let v = c as u32;
		(0x09..=0x0d).contains(&v)
			|| v == 0x20
			|| v == 0x85
			|| v == 0xa0
			|| v == 0x1680
			|| (0x2000..=0x200a).contains(&v)
			|| v == 0x2028
			|| v == 0x2029
			|| v == 0x202f
			|| v == 0x205f
			|| v == 0x3000
	};
	let mut key = String::new();
	for v in 0..=0x10ffffu32 {
		if let Some(c) = char::from_u32(v) {
			key.clear();
			key.push(c);
			key.push('k');
			key.push(c);
			let pair = Pair {
				key: key.clone(),
				value: String::new(),
			};
			let text = pair.to_string();
			if listed(c) {
				assert_eq!(text, "k=\n", "U+{:04X}", v);
			} else {
				assert_eq!(text.len(), 2 * c.len_utf8() + 3, "U+{:04X}", v);
			}
		}
	}
}

#[test]
fn white_space_that_is_no_padding_is_lost_on_writing() {
	let ast = tree("a=b\u{c}\n\u{a0}k\u{3000} = \u{2003}v");
	assert_eq!(pair_of(&ast.body[0]), ("a", "b\u{c}"));
	assert_eq!(pair_of(&ast.body[1]), ("\u{a0}k\u{3000}", "\u{2003}v"));
	assert_eq!(ast.to_string(), "a=b\nk=v\n");
	let again = tree(&ast.to_string());
	assert_eq!(again.to_string(), "a=b\nk=v\n");
}

#[test]
fn section_to_string() {
	let section = Section {
		name: String::from("header"),
		body: vec![
			Item::Comment(Comment {
				indicator: '#',
				value: String::from("body"),
			}),
			Item::Pair(Pair {
				key: String::from("left"),
				value: String::from("right"),
			}),
		],
	};
	assert_eq!(section.to_string(), "[header]\n# body\nleft=right\n");
}

#[test]
fn item_to_string() {
	let item = Item::Pair(Pair {
		key: String::from("a"),
		value: String::from("b"),
	});
	assert_eq!(item.to_string(), "a=b\n");
	let item = Item::Section(Section {
		name: String::from("outer"),
		body: vec![Item::Section(Section {
			name: String::from("inner"),
			body: vec![Item::Pair(Pair {
				key: String::from("a"),
				value: String::from("b"),
			})],
		})],
	});
	assert_eq!(item.to_string(), "[outer]\n[inner]\na=b\n");
}

#[test]
fn document_to_string_separates_sections() {
	let ast = EditorConfigINIAST::new(vec![
		Item::Pair(Pair {
			key: String::from("root"),
			value: String::from("true"),
		}),
		Item::Section(Section {
			name: String::from("one"),
			body: vec![Item::Comment(Comment {
				indicator: '#',
				value: String::from("body1"),
			})],
		}),
		Item::Section(Section {
			name: String::from("two"),
			body: vec![Item::Comment(Comment {
				indicator: ';',
				value: String::from("body2"),
			})],
		}),
	]);
	assert_eq!(
		ast.to_string(),
		"root=true\n\n[one]\n# body1\n\n[two]\n; body2\n"
	);
}

#[test]
fn first_section_has_no_blank_line_before_it() {
	let ast = tree("[one]\na=b\n[two]\nc=d");
	assert_eq!(ast.to_string(), "[one]\na=b\n\n[two]\nc=d\n");
	let text = ast.to_string();
	assert_eq!(text.matches("\n\n").count(), 1);
	assert!(!text.starts_with('\n'));
}

// Parsing and serializing together

#[test]
fn canonical_text_comes_back_unchanged() {
	for text in [
		"",
		"a=b\n",
		"a=b\nc=d\n# note\n",
		"[a]\nb=c\n",
		"root=true\n# top\n\n[*]\nindent_style=tab\n; why\n\n[*.md]\ntrim=false\n",
		"=\n",
		"a\\=b=c=d\n",
		"#  two spaces\n",
		"# \n",
		"[ a b ]\n",
		"[[a]]\n",
	] {
		let ast = parse(text.as_bytes()).unwrap();
		assert_eq!(ast.to_string(), text);
	}
}

#[test]
fn serializing_twice_changes_nothing() {
	for text in [
		"a = b",
		"\n\n  a=b  \n\n[ s ]  \n;c\n#d\n  e = f\r\n[t]\r\n",
		"\u{feff}[a]\r\nb=c",
		"#x\n;y\n",
		"a\\\\=b\n",
		"k = v = w ; not a comment\n",
		"ключ = значение",
	] {
		let once = parse(text.as_bytes()).unwrap().to_string();
		let twice = parse(once.as_bytes()).unwrap().to_string();
		assert_eq!(twice, once);
		let first = parse(text.as_bytes()).unwrap();
		let second = parse(once.as_bytes()).unwrap();
		assert_eq!(format!("{:?}", first), format!("{:?}", second));
	}
}

#[test]
fn key_that_ends_in_a_backslash_does_not_come_back() {
	let ast = tree("a\\ =b");
	assert_eq!(pair_of(&ast.body[0]), ("a\\", "b"));
	let text = ast.to_string();
	assert_eq!(text, "a\\=b\n");
	assert_eq!(
		parse(text.as_bytes()).unwrap_err(),
		ParseError::UnexpectedInput { line: 1 }
	);
}

/// The text after one round and after two.
fn rounds(contents: &str) -> (String, String) {
	let once = tree(contents).to_string();
	let twice = tree(&once).to_string();
	(once, twice)
}

#[test]
fn lines_that_read_back_as_themselves_stay() {
	// the key changes, the line does not
	let (once, twice) = rounds("a\\ =b=c");
	assert_eq!(once, "a\\=b=c\n");
	assert_eq!(twice, once);
	assert_eq!(pair_of(&tree("a\\ =b=c").body[0]), ("a\\", "b=c"));
	assert_eq!(pair_of(&tree(&once).body[0]), ("a\\=b", "c"));
	// a pair that is written as a comment line
	let (once, twice) = rounds("k=v\n\u{a0}# x=y");
	assert_eq!(once, "k=v\n# x=y\n");
	assert_eq!(twice, once);
	// a first line may become a header
	let (once, twice) = rounds("\u{a0}[x=y]");
	assert_eq!(once, "[x=y]\n");
	assert_eq!(twice, once);
}

#[test]
fn lines_that_read_back_otherwise_change() {
	// padding before the second `=` is lost in the second round
	let (once, twice) = rounds("a\\ =b =c");
	assert_eq!(once, "a\\=b =c\n");
	assert_eq!(twice, "a\\=b=c\n");
	// behind the first line a new header gets a blank line
	let (once, twice) = rounds("a=b\n\u{a0}[x=y]");
	assert_eq!(once, "a=b\n[x=y]\n");
	assert_eq!(twice, "a=b\n\n[x=y]\n");
	// a comment line without its space gets one
	let (once, twice) = rounds("\u{a0}#x=y");
	assert_eq!(once, "#x=y\n");
	assert_eq!(twice, "# x=y\n");
	// a byte-order mark in the first key is passed over the next time
	let (once, twice) = rounds("\u{feff}\u{feff}a=b");
	assert_eq!(once, "\u{feff}a=b\n");
	assert_eq!(twice, "a=b\n");
}
