use initrz::error::Error;
use initrz::uevent_listener::{
    get_device_path, mapper_node, on_message, parse_line, parse_uevent, DevicePath,
};

fn message(fields: &[&str]) -> Vec<u8> {
    fields.join("\0").into_bytes()
}

#[test]
fn variables() {
    assert_eq!(
        parse_line(b"ACTION=add"),
        Ok(("ACTION".to_string(), "add".to_string()))
    );
    assert_eq!(parse_line(b"A=b=c"), Ok(("A".to_string(), "b=c".to_string())));
    assert_eq!(parse_line(b"=x"), Ok((String::new(), "x".to_string())));
    assert_eq!(parse_line(b"K="), Ok(("K".to_string(), String::new())));
    assert_eq!(parse_line(b"="), Ok((String::new(), String::new())));
    assert_eq!(
        parse_line("NAME=müller".as_bytes()),
        Ok(("NAME".to_string(), "müller".to_string()))
    );
    assert_eq!(parse_line(b"no equals sign"), Err(Error::UeventParse));
    assert_eq!(parse_line(b""), Err(Error::UeventParse));
    assert_eq!(parse_line(b"K=\xff\xfe"), Err(Error::UeventParse));
    assert_eq!(parse_line(b"\xc3=v"), Err(Error::UeventParse));
    assert_eq!(parse_line(b"K=a\0b"), Err(Error::UeventParse));
    assert_eq!(parse_line(b"K\0=ab"), Err(Error::UeventParse));
}

#[test]
fn messages() {
    let uevent = parse_uevent(&message(&[
        "add@/devices/pci0000:00/block/sda/sda1",
        "ACTION=add",
        "DEVPATH=/devices/pci0000:00/block/sda/sda1",
        "SUBSYSTEM=block",
        "garbage",
        "",
        "SEQNUM=1",
        "SEQNUM=2",
    ]))
    .unwrap();
    assert_eq!(uevent.name(), "add@/devices/pci0000:00/block/sda/sda1");
    assert_eq!(uevent.get("ACTION"), Some(&"add".to_string()));
    assert_eq!(uevent.get("SUBSYSTEM"), Some(&"block".to_string()));
    assert_eq!(uevent.get("SEQNUM"), Some(&"2".to_string()));
    assert_eq!(uevent.get("garbage"), None);
    assert_eq!(uevent.get("MODALIAS"), None);
    assert_eq!(uevent.modalias(), None);
}

#[test]
fn malformed_messages() {
    assert_eq!(parse_uevent(b"").err(), Some(Error::UeventParse));
    assert_eq!(parse_uevent(b"no at sign\0ACTION=add").err(), Some(Error::UeventParse));
    assert_eq!(parse_uevent(b"\0add@/x").err(), Some(Error::UeventParse));
    assert_eq!(parse_uevent(b"add@\xff\0ACTION=add").err(), Some(Error::UeventParse));
    // the header alone is a message
    let uevent = parse_uevent(b"change@/devices/x").unwrap();
    assert_eq!(uevent.name(), "change@/devices/x");
    assert_eq!(uevent.get("ACTION"), None);
    let uevent = parse_uevent(b"@").unwrap();
    assert_eq!(uevent.name(), "@");
    // a NUL at the end gives an empty field, which is passed over
    let uevent = parse_uevent(b"a@b\0K=v\0").unwrap();
    assert_eq!(uevent.get("K"), Some(&"v".to_string()));
}

fn path_of(fields: &[&str]) -> Result<DevicePath, Error> {
    let mut all = vec!["x@y"];
    all.extend_from_slice(fields);
    get_device_path(&parse_uevent(&message(&all)).unwrap())
}

#[test]
fn block_devices_are_announced() {
    assert_eq!(
        path_of(&["ACTION=add", "SUBSYSTEM=block", "DEVPATH=/devices/pci0000:00/ata1/block/sda/sda1"]),
        Ok(DevicePath::Node("/dev/sda1".to_string()))
    );
    assert_eq!(
        path_of(&["ACTION=add", "SUBSYSTEM=block", "DEVPATH=/devices/virtual/block/dm-0"]),
        Ok(DevicePath::Ignored)
    );
    assert_eq!(
        path_of(&["ACTION=change", "SUBSYSTEM=block", "DEVPATH=/devices/virtual/block/dm-0"]),
        Ok(DevicePath::Mapper("/sys/devices/virtual/block/dm-0/dm/name".to_string()))
    );
    assert_eq!(mapper_node("cryptroot\n"), "/dev/mapper/cryptroot");
    assert_eq!(mapper_node("  vg-root \t\n"), "/dev/mapper/vg-root");
    assert_eq!(mapper_node("plain"), "/dev/mapper/plain");
    assert_eq!(mapper_node("two words"), "/dev/mapper/two words");
    assert_eq!(mapper_node(""), "/dev/mapper/");
    assert_eq!(mapper_node(" \n"), "/dev/mapper/");
}

#[test]
fn other_messages_are_passed_over() {
    assert_eq!(
        path_of(&["ACTION=change", "SUBSYSTEM=block", "DEVPATH=/devices/x/sda1"]),
        Ok(DevicePath::Ignored)
    );
    assert_eq!(
        path_of(&["ACTION=remove", "SUBSYSTEM=block", "DEVPATH=/devices/x/sda1"]),
        Ok(DevicePath::Ignored)
    );
    assert_eq!(
        path_of(&["ACTION=remove", "SUBSYSTEM=block", "DEVPATH=/devices/x/dm-1"]),
        Ok(DevicePath::Ignored)
    );
    assert_eq!(
        path_of(&["ACTION=add", "SUBSYSTEM=usb", "DEVPATH=/devices/x/sda1"]),
        Ok(DevicePath::Ignored)
    );
    assert_eq!(
        path_of(&["ACTION=change", "SUBSYSTEM=net", "DEVPATH=/devices/x/dm-0"]),
        Ok(DevicePath::Ignored)
    );
    // `dm` without the hyphen is an ordinary name
    assert_eq!(
        path_of(&["ACTION=add", "SUBSYSTEM=block", "DEVPATH=/devices/x/dm0"]),
        Ok(DevicePath::Node("/dev/dm0".to_string()))
    );
    // separators at the end of the path are passed over
    assert_eq!(
        path_of(&["ACTION=add", "SUBSYSTEM=block", "DEVPATH=/devices/x/sdb/"]),
        Ok(DevicePath::Node("/dev/sdb".to_string()))
    );
}

#[test]
fn incomplete_messages_are_errors() {
    assert_eq!(path_of(&["ACTION=add", "SUBSYSTEM=block"]), Err(Error::UeventParse));
    assert_eq!(
        path_of(&["SUBSYSTEM=block", "DEVPATH=/devices/x/sda"]),
        Err(Error::UeventParse)
    );
    assert_eq!(path_of(&["ACTION=add", "DEVPATH=/devices/x/sda"]), Err(Error::UeventParse));
    assert_eq!(
        path_of(&["ACTION=add", "SUBSYSTEM=block", "DEVPATH=/"]),
        Err(Error::UeventParse)
    );
    assert_eq!(
        path_of(&["ACTION=add", "SUBSYSTEM=usb", "DEVPATH=/devices/.."]),
        Err(Error::UeventParse)
    );
    assert_eq!(path_of(&[]), Err(Error::UeventParse));
}

#[test]
fn received_bytes() {
    let mut buf = message(&[
        "add@/devices/x/sda1",
        "ACTION=add",
        "DEVPATH=/devices/x/sda1",
        "SUBSYSTEM=block",
        "MODALIAS=pci:v00001234d00005678",
    ]);
    buf.push(0);
    let received = buf.len();
    buf.resize(4096, 0);
    let notice = on_message(&buf, received).unwrap();
    assert_eq!(notice.modalias, Some("pci:v00001234d00005678".to_string()));
    assert_eq!(notice.device, Ok(DevicePath::Node("/dev/sda1".to_string())));
    // nothing received, more than the buffer holds, no header
    assert!(on_message(&buf, 0).is_none());
    assert!(on_message(&buf, 4097).is_none());
    assert!(on_message(b"nothing\0", 8).is_none());
    // a message that is cut short still says what it holds
    let notice = on_message(&buf, 31).unwrap();
    assert_eq!(notice.modalias, None);
    assert_eq!(notice.device, Err(Error::UeventParse));
    // the modalias is handed on even where the message is about no block device
    let mut buf = message(&["add@/devices/usb1", "MODALIAS=usb:v1D6B", "SUBSYSTEM=usb"]);
    buf.push(0);
    let notice = on_message(&buf, buf.len()).unwrap();
    assert_eq!(notice.modalias, Some("usb:v1D6B".to_string()));
    assert_eq!(notice.device, Err(Error::UeventParse));
}
