use str_list::list::StrListBuf;

#[test]
fn render_lists_quoted_elements_in_order() {
    let mut buf = StrListBuf::new();
    buf.push("a");
    buf.push("bb");
    assert_eq!(buf.render(), "[\"a\", \"bb\"]");
    assert_eq!(buf.as_str_list().render(), "[\"a\", \"bb\"]");
}

#[test]
fn render_empty_list() {
    let buf = StrListBuf::new();
    assert_eq!(buf.render(), "[]");
}

#[test]
fn render_single_and_empty_elements() {
    let mut single = StrListBuf::new();
    single.push("only");
    assert_eq!(single.render(), "[\"only\"]");

    let mut blank = StrListBuf::new();
    blank.push("");
    blank.push("");
    assert_eq!(blank.render(), "[\"\", \"\"]");
}
