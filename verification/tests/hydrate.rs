use template_hydrator::codec::encode_binary;
use template_hydrator::error::HydrateError;
use template_hydrator::hydrate::{
    find_and_replace_binary_fields, hydrate_binary, hydrate_text, recursively_hydrate,
};
use template_hydrator::tree::{parse_document, render_document, JsonTree};
use template_hydrator::vars::VariableTable;

fn table_of(pairs: &[(&str, &str)]) -> VariableTable {
    let mut table = VariableTable::new();
    for (name, value) in pairs {
        table.insert(name.to_string(), value.to_string());
    }
    table
}

fn b64(text: &str) -> String {
    encode_binary(&text.as_bytes().to_vec()).unwrap()
}

fn text(value: &str) -> JsonTree {
    JsonTree::Text(value.to_string())
}

#[test]
fn recursively_hydrate_fills_one_layer() {
    let table = table_of(&[("$v", "1")]);
    let out = recursively_hydrate(b"{\"k\":\"$v\"}".to_vec(), &table, 1).unwrap();
    assert_eq!(out, b"{\"k\":\"1\"}".to_vec());
}

#[test]
fn recursively_hydrate_writes_the_document_anew() {
    // Blanks go and members come out ordered by name.
    let table = VariableTable::new();
    let out = recursively_hydrate(b" { \"b\" : 1 , \"a\" : [ ] } ".to_vec(), &table, 1).unwrap();
    assert_eq!(out, b"{\"a\":[],\"b\":1}".to_vec());
}

#[test]
fn recursively_hydrate_substitutes_in_names_and_outside_strings() {
    // Substitution is on the text, before it is read as a document.
    let table = table_of(&[("$n", "7"), ("$key", "amount")]);
    let out = recursively_hydrate(b"{\"$key\":$n}".to_vec(), &table, 1).unwrap();
    assert_eq!(out, b"{\"amount\":7}".to_vec());
}

#[test]
fn recursively_hydrate_fills_two_layers() {
    let table = table_of(&[("$var.amount", "100")]);
    let inner = "{\"amount\":\"$var.amount\"}";
    let outer = format!("{{\"send\":{{\"msg\":\"{}\"}}}}", b64(inner));
    let out = recursively_hydrate(outer.into_bytes(), &table, 2).unwrap();
    let expected = format!("{{\"send\":{{\"msg\":\"{}\"}}}}", b64("{\"amount\":\"100\"}"));
    assert_eq!(String::from_utf8(out).unwrap(), expected);
}

#[test]
fn recursively_hydrate_fills_every_layer_of_a_deep_nest() {
    let table = table_of(&[("$x", "filled")]);
    let layers = 6;
    let mut template = "{\"level\":\"$x\"}".to_string();
    let mut expected = "{\"level\":\"filled\"}".to_string();
    for _ in 1..layers {
        template = format!("{{\"level\":\"$x\",\"next\":\"{}\"}}", b64(&template));
        expected = format!("{{\"level\":\"filled\",\"next\":\"{}\"}}", b64(&expected));
    }
    let out = recursively_hydrate(template.clone().into_bytes(), &table, layers).unwrap();
    assert_eq!(String::from_utf8(out).unwrap(), expected);
    // More room than needed changes nothing.
    let out = recursively_hydrate(template.clone().into_bytes(), &table, layers + 10).unwrap();
    assert_eq!(String::from_utf8(out).unwrap(), expected);
    // One layer too few is refused.
    assert_eq!(
        recursively_hydrate(template.into_bytes(), &table, layers - 1).err(),
        Some(HydrateError::DepthExceeded)
    );
}

#[test]
fn recursively_hydrate_keeps_a_placeholder_inside_its_subtree() {
    let table = table_of(&[("$only", "here")]);
    let with = "{\"v\":\"$only\"}";
    let without = "{\"v\":\"untouched\"}";
    let doc = format!(
        "{{\"a\":\"{}\",\"b\":\"{}\",\"c\":\"plain\"}}",
        b64(with),
        b64(without)
    );
    let out = recursively_hydrate(doc.into_bytes(), &table, 2).unwrap();
    let expected = format!(
        "{{\"a\":\"{}\",\"b\":\"{}\",\"c\":\"plain\"}}",
        b64("{\"v\":\"here\"}"),
        b64(without)
    );
    assert_eq!(String::from_utf8(out).unwrap(), expected);
}

#[test]
fn recursively_hydrate_refuses_bytes_that_are_no_text() {
    let table = VariableTable::new();
    assert_eq!(
        recursively_hydrate(vec![0xff, 0xfe, 0xfd], &table, 4).err(),
        Some(HydrateError::Decode)
    );
    assert_eq!(recursively_hydrate(vec![0xff], &table, 0).err(), Some(HydrateError::Decode));
}

#[test]
fn recursively_hydrate_refuses_text_that_is_no_document() {
    let table = VariableTable::new();
    assert_eq!(
        recursively_hydrate(b"just words".to_vec(), &table, 4).err(),
        Some(HydrateError::Parse)
    );
    assert_eq!(recursively_hydrate(Vec::new(), &table, 4).err(), Some(HydrateError::Parse));
    assert_eq!(recursively_hydrate(b"{".to_vec(), &table, 0).err(), Some(HydrateError::Parse));
}

#[test]
fn recursively_hydrate_refuses_a_document_where_no_layer_is_left() {
    let table = VariableTable::new();
    assert_eq!(
        recursively_hydrate(b"{}".to_vec(), &table, 0).err(),
        Some(HydrateError::DepthExceeded)
    );
}

#[test]
fn recursively_hydrate_can_break_a_document_by_substitution() {
    // The value brings a quote into the text, and what is left is no JSON.
    let table = table_of(&[("$v", "a\"b")]);
    assert_eq!(
        recursively_hydrate(b"{\"k\":\"$v\"}".to_vec(), &table, 1).err(),
        Some(HydrateError::Parse)
    );
}

#[test]
fn hydrate_text_leaves_plain_text_alone() {
    let table = table_of(&[("$v", "1")]);
    for plain in ["12345", "0.05", "uterra", "terra12345", "hello world", "$v"] {
        assert_eq!(hydrate_text(plain.to_string(), &table, 3).unwrap(), plain);
        assert_eq!(hydrate_text(plain.to_string(), &table, 0).unwrap(), plain);
    }
}

#[test]
fn hydrate_text_leaves_base64_that_holds_no_document() {
    let table = table_of(&[("$v", "1")]);
    // Bytes that are no text.
    assert_eq!(hydrate_text("//79".to_string(), &table, 3).unwrap(), "//79");
    assert_eq!(hydrate_text("1234".to_string(), &table, 3).unwrap(), "1234");
    // Text that is no JSON.
    let words = b64("some words with $v");
    assert_eq!(hydrate_text(words.clone(), &table, 3).unwrap(), words);
    // And none of them asks for a layer.
    assert_eq!(hydrate_text("//79".to_string(), &table, 0).unwrap(), "//79");
    assert_eq!(hydrate_text(words.clone(), &table, 0).unwrap(), words);
}

#[test]
fn hydrate_text_hydrates_a_payload() {
    let table = table_of(&[("$v", "1")]);
    let out = hydrate_text(b64("{\"k\":\"$v\"}"), &table, 1).unwrap();
    assert_eq!(out, b64("{\"k\":\"1\"}"));
}

#[test]
fn hydrate_text_refuses_a_payload_where_no_layer_is_left() {
    let table = VariableTable::new();
    assert_eq!(
        hydrate_text(b64("{\"k\":1}"), &table, 0).err(),
        Some(HydrateError::DepthExceeded)
    );
}

#[test]
fn find_and_replace_leaves_other_values_alone() {
    let table = table_of(&[("$v", "1")]);
    assert_eq!(
        find_and_replace_binary_fields(JsonTree::Null, &table, 1).unwrap(),
        JsonTree::Null
    );
    assert_eq!(
        find_and_replace_binary_fields(JsonTree::Bool(true), &table, 1).unwrap(),
        JsonTree::Bool(true)
    );
    let number = JsonTree::Number(serde_json::Number::from(12u64));
    assert_eq!(
        find_and_replace_binary_fields(number, &table, 1).unwrap(),
        JsonTree::Number(serde_json::Number::from(12u64))
    );
    // The walk does not substitute: that is done on the text of a document.
    assert_eq!(find_and_replace_binary_fields(text("$v"), &table, 1).unwrap(), text("$v"));
}

#[test]
fn find_and_replace_walks_arrays_and_objects() {
    let table = table_of(&[("$v", "1")]);
    let payload = b64("{\"k\":\"$v\"}");
    let done = b64("{\"k\":\"1\"}");
    let tree = JsonTree::Object(vec![
        ("plain".to_string(), text("words")),
        (
            "list".to_string(),
            JsonTree::Array(vec![
                text(&payload),
                JsonTree::Null,
                JsonTree::Array(vec![text(&payload)]),
            ]),
        ),
        (
            "inner".to_string(),
            JsonTree::Object(vec![("field".to_string(), text(&payload))]),
        ),
    ]);
    let expected = JsonTree::Object(vec![
        ("plain".to_string(), text("words")),
        (
            "list".to_string(),
            JsonTree::Array(vec![text(&done), JsonTree::Null, JsonTree::Array(vec![text(&done)])]),
        ),
        (
            "inner".to_string(),
            JsonTree::Object(vec![("field".to_string(), text(&done))]),
        ),
    ]);
    assert_eq!(find_and_replace_binary_fields(tree, &table, 1).unwrap(), expected);
}

#[test]
fn find_and_replace_leaves_member_names_alone() {
    let table = table_of(&[("$v", "1")]);
    let payload = b64("{\"k\":\"$v\"}");
    let tree = JsonTree::Object(vec![(payload.clone(), text("x"))]);
    let expected = JsonTree::Object(vec![(payload, text("x"))]);
    assert_eq!(find_and_replace_binary_fields(tree, &table, 1).unwrap(), expected);
}

#[test]
fn find_and_replace_on_empty_containers() {
    let table = VariableTable::new();
    assert_eq!(
        find_and_replace_binary_fields(JsonTree::Array(Vec::new()), &table, 0).unwrap(),
        JsonTree::Array(Vec::new())
    );
    assert_eq!(
        find_and_replace_binary_fields(JsonTree::Object(Vec::new()), &table, 0).unwrap(),
        JsonTree::Object(Vec::new())
    );
}

#[test]
fn find_and_replace_gives_up_at_the_first_payload_too_deep() {
    let table = VariableTable::new();
    let tree = JsonTree::Array(vec![text("plain"), text(&b64("{}")), text("more")]);
    assert_eq!(
        find_and_replace_binary_fields(tree, &table, 0).err(),
        Some(HydrateError::DepthExceeded)
    );
}

#[test]
fn find_and_replace_matches_the_walk_of_a_parsed_document() {
    let table = table_of(&[("$who", "terra1")]);
    let inner = b64("{\"to\":\"$who\"}");
    let source = format!("{{\"a\":[\"{}\",\"AAEC\"],\"b\":\"0.05\"}}", inner);
    let tree = parse_document(&source).unwrap();
    let done = find_and_replace_binary_fields(tree, &table, 1).unwrap();
    let expected = format!(
        "{{\"a\":[\"{}\",\"AAEC\"],\"b\":\"0.05\"}}",
        b64("{\"to\":\"terra1\"}")
    );
    assert_eq!(render_document(&done).unwrap(), expected);
}

#[test]
fn hydrate_binary_decodes_hydrates_and_encodes() {
    let table = table_of(&[("$v", "1")]);
    assert_eq!(hydrate_binary(&b64("{\"k\":\"$v\"}"), &table, 1).unwrap(), b64("{\"k\":\"1\"}"));
    // Missing padding is taken, and the result is padded.
    assert_eq!(hydrate_binary("e30", &table, 1).unwrap(), "e30=");
}

#[test]
fn hydrate_binary_fails_where_hydrate_text_lets_be() {
    let table = VariableTable::new();
    assert_eq!(hydrate_binary("not base64!", &table, 3).err(), Some(HydrateError::Decode));
    assert_eq!(hydrate_binary("//79", &table, 3).err(), Some(HydrateError::Decode));
    assert_eq!(hydrate_binary(&b64("words"), &table, 3).err(), Some(HydrateError::Parse));
    assert_eq!(hydrate_binary(&b64("{}"), &table, 0).err(), Some(HydrateError::DepthExceeded));
}

#[test]
fn hydrated_payload_is_base64_of_text_again() {
    let table = table_of(&[("$v", "é")]);
    let out = hydrate_binary(&b64("[\"$v\"]"), &table, 1).unwrap();
    let bytes = template_hydrator::codec::decode_binary(&out).unwrap();
    assert_eq!(template_hydrator::codec::text_of_bytes(bytes), Some("[\"é\"]".to_string()));
}

fn texts_of(tree: &JsonTree, out: &mut Vec<String>) {
    match tree {
        JsonTree::Text(t) => out.push(t.clone()),
        JsonTree::Array(items) => {
            for item in items {
                texts_of(item, out);
            }
        }
        JsonTree::Object(members) => {
            for (_, value) in members {
                texts_of(value, out);
            }
        }
        _ => {}
    }
}

#[test]
fn every_rewritten_text_decodes_to_text_again() {
    let table = table_of(&[("$v", "1")]);
    let source = format!(
        "{{\"a\":[\"{}\",\"AAEC\",\"//79\",\"plain\"],\"b\":{{\"c\":\"{}\",\"d\":\"0.05\"}}}}",
        b64("{\"k\":\"$v\"}"),
        b64(&format!("[\"{}\"]", b64("\"$v\"")))
    );
    let before = parse_document(&source).unwrap();
    let mut old_texts = Vec::new();
    texts_of(&before, &mut old_texts);
    let after = find_and_replace_binary_fields(before, &table, 2).unwrap();
    let mut new_texts = Vec::new();
    texts_of(&after, &mut new_texts);
    assert_eq!(old_texts.len(), new_texts.len());
    let mut rewritten = 0;
    for (old, new) in old_texts.iter().zip(new_texts.iter()) {
        if old != new {
            rewritten += 1;
            let bytes = template_hydrator::codec::decode_binary(new).unwrap();
            assert!(template_hydrator::codec::text_of_bytes(bytes).is_some());
        }
    }
    assert_eq!(rewritten, 2);
}

#[test]
fn payload_with_nothing_to_change_is_written_as_read() {
    let table = table_of(&[("$absent", "x")]);
    let source = "{\"amount\":\"12345\",\"list\":[1,2.5,null,true],\"to\":\"terra1\"}";
    let out = recursively_hydrate(source.as_bytes().to_vec(), &table, 1).unwrap();
    assert_eq!(String::from_utf8(out.clone()).unwrap(), source);
    let again = parse_document(&String::from_utf8(out).unwrap()).unwrap();
    assert_eq!(again, parse_document(source).unwrap());
}
