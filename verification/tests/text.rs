use simple_p2p::{format_addr, format_elapsed, format_list_of_addrs, Address};

fn addr(port: u16) -> Address {
    Address { ip0: 127, ip1: 0, ip2: 0, ip3: 1, port }
}

#[test]
fn address_renders_in_dotted_form() {
    assert_eq!(format_addr(&addr(4412)), "127.0.0.1:4412");
    let a = Address { ip0: 10, ip1: 0, ip2: 200, ip3: 255, port: 65535 };
    assert_eq!(format_addr(&a), "10.0.200.255:65535");
}

#[test]
fn empty_listing_has_a_placeholder() {
    assert_eq!(format_list_of_addrs(&vec![]), "[no one]");
}

#[test]
fn listing_quotes_and_joins_addresses() {
    assert_eq!(format_list_of_addrs(&vec![addr(9000)]), "[\"127.0.0.1:9000\"]");
    assert_eq!(
        format_list_of_addrs(&vec![addr(9000), addr(9001)]),
        "[\"127.0.0.1:9000\", \"127.0.0.1:9001\"]"
    );
}

#[test]
fn elapsed_time_renders_as_clock() {
    assert_eq!(format_elapsed(0), "00:00:00");
    assert_eq!(format_elapsed(5), "00:00:05");
    assert_eq!(format_elapsed(3723), "01:02:03");
    assert_eq!(format_elapsed(359999), "99:59:59");
    assert_eq!(format_elapsed(360000), "100:00:00");
}
