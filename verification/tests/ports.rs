use rnetmap::{parse_ports, ParseListError};

fn number_fault(spec: &str) -> String {
    match parse_ports(spec) {
        Err(ParseListError::InvalidNumber(token)) => token,
        other => panic!("expected an invalid number, got {:?}", other),
    }
}

fn range_fault(spec: &str) -> String {
    match parse_ports(spec) {
        Err(ParseListError::InvalidRange(token)) => token,
        other => panic!("expected an invalid range, got {:?}", other),
    }
}

#[test]
fn mixed_list_expands_in_order() {
    assert_eq!(parse_ports("22,80,1000-1002").unwrap(), vec![22, 80, 1000, 1001, 1002]);
}

#[test]
fn wildcard_is_every_port() {
    let all = parse_ports("*").unwrap();
    assert_eq!(all.len(), 65535);
    for (i, p) in all.iter().enumerate() {
        assert_eq!(*p as usize, i + 1);
    }
    assert_eq!(parse_ports("  *\t").unwrap(), all);
}

#[test]
fn zero_is_no_port() {
    assert_eq!(number_fault("0"), "0");
    assert_eq!(number_fault("80, 0 ,443"), "0");
}

#[test]
fn range_from_zero_is_rejected() {
    assert_eq!(range_fault("0-10"), "0-10");
}

#[test]
fn backward_range_is_rejected() {
    assert_eq!(range_fault("200-100"), "200-100");
}

#[test]
fn word_is_no_port() {
    assert_eq!(number_fault("abc"), "abc");
}

#[test]
fn out_of_range_numbers_are_rejected() {
    assert_eq!(number_fault("65536"), "65536");
    assert_eq!(number_fault("99999999999999999999999"), "99999999999999999999999");
    assert_eq!(range_fault("1-65536"), "1-65536");
    assert_eq!(parse_ports("65535").unwrap(), vec![65535]);
    assert_eq!(parse_ports("65534-65535").unwrap(), vec![65534, 65535]);
}

#[test]
fn malformed_ranges_are_rejected() {
    assert_eq!(range_fault("10-"), "10-");
    assert_eq!(range_fault("-10"), "-10");
    assert_eq!(range_fault("-"), "-");
    assert_eq!(range_fault("1-2-3"), "1-2-3");
    assert_eq!(range_fault("10 - 20"), "10 - 20");
    assert_eq!(range_fault("a-5"), "a-5");
    assert_eq!(range_fault("5-b"), "5-b");
}

#[test]
fn first_bad_item_is_reported() {
    assert_eq!(range_fault("22, 9-3 ,abc"), "9-3");
    assert_eq!(number_fault("22,x,9-3"), "x");
    assert_eq!(number_fault("*,80"), "*");
}

#[test]
fn blank_items_are_skipped() {
    assert_eq!(parse_ports("").unwrap(), Vec::<u16>::new());
    assert_eq!(parse_ports(" , ,").unwrap(), Vec::<u16>::new());
    assert_eq!(parse_ports(" 80 , ,443 ,").unwrap(), vec![80, 443]);
    assert_eq!(parse_ports("\u{3000}8080\u{00A0}").unwrap(), vec![8080]);
}

#[test]
fn duplicates_collapse_and_order_is_ascending() {
    assert_eq!(parse_ports("443,80,79-81,80").unwrap(), vec![79, 80, 81, 443]);
    assert_eq!(parse_ports("5-5").unwrap(), vec![5]);
    assert_eq!(parse_ports("3-6,1-4").unwrap(), vec![1, 2, 3, 4, 5, 6]);
}

#[test]
fn sign_and_leading_zeros_are_read_as_numbers() {
    assert_eq!(parse_ports("+80").unwrap(), vec![80]);
    assert_eq!(parse_ports("0080").unwrap(), vec![80]);
    assert_eq!(parse_ports("000000000000000000000443").unwrap(), vec![443]);
    assert_eq!(parse_ports("+1-+3").unwrap(), vec![1, 2, 3]);
    assert_eq!(number_fault("+"), "+");
    assert_eq!(number_fault("++1"), "++1");
    assert_eq!(number_fault("8 0"), "8 0");
    assert_eq!(number_fault("\u{FF11}"), "\u{FF11}");
}

#[test]
fn reading_a_rendered_list_gives_it_back() {
    let ports: Vec<u16> = vec![1, 22, 80, 443, 8080, 65535];
    let rendered = ports.iter().map(|p| p.to_string()).collect::<Vec<_>>().join(",");
    assert_eq!(parse_ports(&rendered).unwrap(), ports);
    let all = parse_ports("*").unwrap();
    let rendered = all.iter().map(|p| p.to_string()).collect::<Vec<_>>().join(",");
    assert_eq!(parse_ports(&rendered).unwrap(), all);
}

#[test]
fn rendering_joins_the_ports_with_commas() {
    assert_eq!(rnetmap::render::render_ports(&vec![]), "");
    assert_eq!(rnetmap::render::render_ports(&vec![443]), "443");
    assert_eq!(
        rnetmap::render::render_ports(&vec![1, 22, 80, 1000, 65535, 0, 10, 9]),
        "1,22,80,1000,65535,0,10,9"
    );
}

#[test]
fn reading_what_was_rendered_gives_the_same_ports() {
    for spec in ["", "7", "22,80,1000-1002", "65000-65535,1-3", "*"] {
        let ports = parse_ports(spec).unwrap();
        let text = rnetmap::render::render_ports(&ports);
        assert_eq!(parse_ports(&text).unwrap(), ports, "specification {:?}", spec);
    }
}

#[test]
fn port_list_faults_have_messages() {
    assert_eq!(parse_ports("22,http").unwrap_err().message(), "invalid number: http");
    assert_eq!(parse_ports(" 9-3 ").unwrap_err().message(), "invalid range: 9-3");
}
