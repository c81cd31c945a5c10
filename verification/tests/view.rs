use codeio::view::{esc, page_json, page_window, Op, PageWindow, Sort, SortDir};

#[test]
fn pagination() {
    // five rows, pages of two, the second page
    let w = page_window(5, 1, 2);
    assert_eq!(w.end - w.start, 2);
    assert_eq!(w.total_pages, 3);
    assert_eq!(w, PageWindow { page_size: 2, total_pages: 3, start: 2, end: 4 });
}

#[test]
fn json_shape() {
    let cols: Vec<String> = vec!["buy".into(), "qty".into(), "sym".into()];
    let rows: Vec<Vec<String>> = vec![
        vec!["true".into(), "10".into(), "AAPL".into()],
        vec!["false".into(), "2".into(), "BTC".into()],
        vec!["true".into(), "5".into(), "MSFT".into()],
        vec!["false".into(), "8".into(), "ETH".into()],
        vec!["true".into(), "3".into(), "NVDA".into()],
    ];
    let w = page_window(5, 0, 25);
    let j = page_json(5, 0, w.page_size, w.total_pages, &cols, &rows);
    assert!(j.contains("\"total\":5"));
    assert!(j.contains("\"rows\":["));
}

#[test]
fn page_window_edges() {
    // unpaged: everything on one page
    assert_eq!(page_window(5, 0, 0), PageWindow { page_size: 5, total_pages: 1, start: 0, end: 5 });
    // unpaged and empty: size 1, no pages
    assert_eq!(page_window(0, 0, 0), PageWindow { page_size: 1, total_pages: 0, start: 0, end: 0 });
    // past the last page: an empty window at the end
    assert_eq!(page_window(5, 9, 2), PageWindow { page_size: 2, total_pages: 3, start: 5, end: 5 });
    // a last page that is not full
    assert_eq!(page_window(5, 2, 2), PageWindow { page_size: 2, total_pages: 3, start: 4, end: 5 });
    // a page number whose product with the size overflows saturates
    assert_eq!(page_window(7, usize::MAX, 3).start, 7);
    assert_eq!(page_window(6, 0, 3).total_pages, 2);
}

#[test]
fn escapes_and_page_json_exact() {
    assert_eq!(esc("a\"b\\c"), "a\\\"b\\\\c");
    assert_eq!(esc("x\ny"), "x\ny");
    let cols: Vec<String> = vec!["s\"q".into(), "n".into()];
    let rows: Vec<Vec<String>> = vec![vec!["v\\1".into()], vec![]];
    assert_eq!(
        page_json(2, 0, 25, 1, &cols, &rows),
        "{\"total\":2,\"page\":0,\"page_size\":25,\"total_pages\":1,\"columns\":[\"s\\\"q\",\"n\"],\"rows\":[{\"s\\\"q\":\"v\\\\1\",\"n\":\"\"},{\"s\\\"q\":\"\",\"n\":\"\"}]}"
    );
}

#[test]
fn view_spec_parts() {
    let s = Sort { column: "qty".into(), dir: SortDir::Desc };
    assert_eq!(s.dir, SortDir::Desc);
    assert_ne!(Op::Gt, Op::Ge);
    assert_eq!(s.clone().column, "qty");
}
