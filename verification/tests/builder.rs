use quake3::channel::Connect;
use quake3::channel::IpAddress;
use quake3::channel::ServerBuilder;
use quake3::channel::status_probe;
use quake3::channel::RESPONSE_BUFFER_LEN;

#[test]
fn staged_builder_yields_supplied_endpoint() {
    let built = ServerBuilder::new()
        .ip(IpAddress::V4(104, 243, 45, 183))
        .port(28963u16)
        .build();
    assert_eq!(
        built,
        Ok(Connect { ip: IpAddress::V4(104, 243, 45, 183), port: 28963 })
    );
}

#[test]
fn staged_builder_v6() {
    let addr = IpAddress::V6(0, 0, 0, 0, 0, 0, 0, 1);
    let built = ServerBuilder::new().ip(addr).port(27960u16).build().unwrap();
    assert_eq!(built.ip, addr);
    assert_eq!(built.port, 27960);
}

#[test]
fn probe_is_marker_then_getstatus() {
    let p = status_probe();
    assert_eq!(p.as_slice(), b"\xFF\xFF\xFF\xFFgetstatus");
}

#[test]
fn receive_buffer_fits_observed_replies() {
    assert_eq!(RESPONSE_BUFFER_LEN, 1024);
}
