use freedroid::devices::parse_devices;
use freedroid::files::{parse_stat_lines, volumes_from_listing};

#[test]
fn parses_usb_and_wifi() {
    let out = "List of devices attached\n\
               0A1B2C3D\tdevice product:raven model:Pixel_6_Pro device:raven transport_id:1\n\
               192.168.1.5:5555\tdevice product:x model:Galaxy_S21 device:y transport_id:2\n\
               FEEDFACE\tunauthorized\n";
    let d = parse_devices(out);
    assert_eq!(d.len(), 3);
    assert_eq!(d[0].serial, "0A1B2C3D");
    assert_eq!(d[0].display_name(), "Pixel 6 Pro");
    assert!(!d[0].wifi);
    assert!(d[1].wifi);
    assert_eq!(d[2].state, "unauthorized");
    assert_eq!(d[2].model, None);
}

#[test]
fn parses_stat_output() {
    let out = "/sdcard/DCIM|4096|1700000000|directory\n\
               /sdcard/song|name.mp3|5242880|1700000100|regular file\n\
               /sdcard/link|1024|1700000200|symbolic link\n";
    let e = parse_stat_lines(out);
    assert_eq!(e.len(), 3);
    // sorted: directory first
    assert_eq!(e[0].name, "DCIM");
    assert!(e[0].is_dir);
    // filename containing '|' preserved
    let mp3 = e.iter().find(|x| x.name == "song|name.mp3").unwrap();
    assert_eq!(mp3.size, 5242880);
    assert_eq!(mp3.mtime, 1700000100);
    let link = e.iter().find(|x| x.name == "link").unwrap();
    assert!(link.is_symlink);
}

#[test]
fn devices_skip_noise_and_short_lines() {
    let out = "* daemon not running; starting now at tcp:5037\r\n\
               * daemon started successfully\r\n\
               adb server version (41) doesn't match this client\r\n\
               List of devices attached\r\n\
               \r\n\
               lonely\r\n\
               SERIAL1 offline product:p1 product:p2 model:m1 model:m2\r\n";
    let d = parse_devices(out);
    assert_eq!(d.len(), 1);
    assert_eq!(d[0].serial, "SERIAL1");
    assert_eq!(d[0].state, "offline");
    assert_eq!(d[0].model.as_deref(), Some("m2"));
    assert_eq!(d[0].product.as_deref(), Some("p2"));
    assert!(!d[0].wifi);
    assert_eq!(d[0].display_name(), "m2");
}

#[test]
fn device_without_model_shows_serial() {
    let d = parse_devices("emulator-5554 device\n");
    assert_eq!(d.len(), 1);
    assert_eq!(d[0].display_name(), "emulator-5554");
    assert_eq!(d[0].model, None);
    assert_eq!(d[0].product, None);
}

#[test]
fn wifi_needs_dot_before_first_colon() {
    let d = parse_devices("host:5555 device\nadb-XYZ._adb-tls-connect._tcp device\n10.0.0.2:40123 device\n");
    assert_eq!(d.len(), 3);
    assert!(!d[0].wifi);
    assert!(!d[1].wifi);
    assert!(d[2].wifi);
}

#[test]
fn stat_orders_dirs_then_lowercase_names_stably() {
    let out = "/s/b|1|1|regular file\r\n\
               /s/B|2|2|regular file\n\
               /s/a|3|3|regular file\n\
               /s/Z|4|4|directory\n\
               /s/y|5|5|directory\n\
               \n\
               broken|line\n";
    let e = parse_stat_lines(out);
    let names: Vec<&str> = e.iter().map(|x| x.name.as_str()).collect();
    assert_eq!(names, vec!["y", "Z", "a", "b", "B"]);
    assert_eq!(e[3].size, 1);
    assert_eq!(e[4].size, 2);
}

#[test]
fn stat_bad_numbers_read_as_zero() {
    let out = "/s/f| 12 |-5|regular file\n/s/g|x|99999999999999999999|regular file\n/s/h|+7|+8|regular file\n";
    let e = parse_stat_lines(out);
    assert_eq!(e.len(), 3);
    assert_eq!(e[0].name, "f");
    assert_eq!(e[0].size, 12);
    assert_eq!(e[0].mtime, -5);
    assert_eq!(e[1].size, 0);
    assert_eq!(e[1].mtime, 0);
    assert_eq!(e[2].size, 7);
    assert_eq!(e[2].mtime, 8);
    assert_eq!(e[0].path, "/s/f");
}

#[test]
fn stat_name_without_slash_is_whole_path() {
    let e = parse_stat_lines("plain|0|0|regular file");
    assert_eq!(e.len(), 1);
    assert_eq!(e[0].name, "plain");
    assert!(!e[0].is_dir);
    assert!(!e[0].is_symlink);
}

#[test]
fn volumes_list_internal_then_cards() {
    let v = volumes_from_listing("ABCD-1234  emulated\nself usbdisk\n");
    assert_eq!(v.len(), 3);
    assert_eq!(v[0].label, "Internal storage");
    assert_eq!(v[0].path, "/sdcard");
    assert_eq!(v[1].label, "SD card");
    assert_eq!(v[1].path, "/storage/ABCD-1234");
    assert_eq!(v[2].label, "usbdisk");
    assert_eq!(v[2].path, "/storage/usbdisk");
}

#[test]
fn volumes_of_empty_listing() {
    let v = volumes_from_listing("");
    assert_eq!(v.len(), 1);
    let w = volumes_from_listing("ABCD-12G4 abcd-ef01");
    assert_eq!(w[1].label, "ABCD-12G4");
    assert_eq!(w[2].label, "SD card");
}
