//! Device enumeration: reading the output of `adb devices -l`.
use vstd::prelude::*;

use crate::text::{
    opt_view,
    chars_of, has_char, has_prefix, lemma_split_on_nonempty, replace_char, replace_chars,
    slice_chars, split_chars, split_on, starts_with, string_of, trim_chars, trim_white, views,
    words, words_exec,
};

verus! {

/// One attached device.
pub struct Device {
    pub serial: String,
    /// "device" (ready), "unauthorized" (USB-debugging prompt pending),
    /// "offline", "no permissions", etc.
    pub state: String,
    /// Human-friendly model name when available.
    pub model: Option<String>,
    pub product: Option<String>,
    /// True when connected over TCP/IP (Wi-Fi): the serial looks like ip:port.
    pub wifi: bool,
}

/// What a device record holds.
pub struct DeviceView {
    pub serial: Seq<char>,
    pub state: Seq<char>,
    pub model: Option<Seq<char>>,
    pub product: Option<Seq<char>>,
    pub wifi: bool,
}

impl View for Device {
    type V = DeviceView;

    open spec fn view(&self) -> DeviceView {
        DeviceView {
            serial: self.serial@,
            state: self.state@,
            model: opt_view(self.model),
            product: opt_view(self.product),
            wifi: self.wifi,
        }
    }
}

/// The name shown for a device: its model with `_` read as spaces, else its
/// serial.
pub open spec fn display_name_of(d: DeviceView) -> Seq<char> {
    match d.model {
        Some(m) => replace_char(m, '_', ' '),
        None => d.serial,
    }
}

impl Device {
    /// The name shown for this device: its model with `_` read as spaces,
    /// else its serial.
    pub fn display_name(&self) -> (s: String)
        ensures
            s@ == display_name_of(self@),
    {
        match &self.model {
            Some(m) => {
                let cs = chars_of(m.as_str());
                string_of(&replace_chars(&cs, '_', ' '))
            },
            None => self.serial.clone(),
        }
    }
}

/// The value of the last word that starts with `prefix`, without the prefix.
pub open spec fn last_tag(tags: Seq<Seq<char>>, prefix: Seq<char>) -> Option<Seq<char>>
    decreases tags.len(),
{
    if tags.len() == 0 {
        None
    } else if starts_with(tags.last(), prefix) {
        Some(tags.last().skip(prefix.len() as int))
    } else {
        last_tag(tags.drop_last(), prefix)
    }
}

/// A serial names a Wi-Fi connection when it holds a `:` and its part before
/// the first `:` holds a `.` (an `ip:port` address).
pub open spec fn is_wifi_serial(serial: Seq<char>) -> bool {
    serial.contains(':') && split_on(serial, ':')[0].contains('.')
}

/// Lines that carry no device: empty ones, the header, daemon messages.
pub open spec fn is_noise_line(line: Seq<char>) -> bool {
    ||| line.len() == 0
    ||| starts_with(line, "List of devices"@)
    ||| starts_with(line, "*"@)
    ||| starts_with(line, "adb server"@)
}

/// The device one trimmed line stands for: its first word is the serial, its
/// second the state, and later words may tag the model and the product.
pub open spec fn device_of_line(line: Seq<char>) -> Option<DeviceView> {
    let ws = words(line);
    if is_noise_line(line) || ws.len() < 2 {
        None
    } else {
        let tags = ws.skip(2);
        Some(
            DeviceView {
                serial: ws[0],
                state: ws[1],
                model: last_tag(tags, "model:"@),
                product: last_tag(tags, "product:"@),
                wifi: is_wifi_serial(ws[0]),
            },
        )
    }
}

/// The devices of the given lines, in order.
pub open spec fn devices_of_lines(lines: Seq<Seq<char>>) -> Seq<DeviceView>
    decreases lines.len(),
{
    if lines.len() == 0 {
        Seq::empty()
    } else {
        let prev = devices_of_lines(lines.drop_last());
        match device_of_line(trim_white(lines.last())) {
            Some(d) => prev.push(d),
            None => prev,
        }
    }
}

/// The devices that `adb devices -l` printed, in its order.
pub open spec fn devices_of_output(out: Seq<char>) -> Seq<DeviceView> {
    devices_of_lines(split_on(out, '\n'))
}

pub open spec fn device_views(s: Seq<Device>) -> Seq<DeviceView> {
    s.map_values(|d: Device| d@)
}

/// The value of the last tag with the given prefix.
fn find_last_tag(ws: &Vec<Vec<char>>, from: usize, prefix: &[char]) -> (r: Option<String>)
    requires
        from <= ws@.len(),
    ensures
        opt_view(r) == last_tag(views(ws@).skip(from as int), prefix@),
{
    let mut j: usize = ws.len();
    let ghost tags = views(ws@).skip(from as int);
    assert(tags.take(tags.len() as int) == tags);
    while j > from
        invariant
            from <= j <= ws@.len(),
            tags == views(ws@).skip(from as int),
            last_tag(tags, prefix@) == last_tag(tags.take(j - from), prefix@),
        decreases j,
    {
        let ghost t = tags.take(j - from);
        assert(t.last() == ws@[j - 1]@);
        assert(t.drop_last() == tags.take(j - 1 - from));
        if has_prefix(&ws[j - 1], prefix) {
            let v = slice_chars(&ws[j - 1], prefix.len(), ws[j - 1].len());
            return Some(string_of(&v));
        }
        j = j - 1;
    }
    None
}

/// Reads one trimmed line.
fn parse_device_line(line: &[char]) -> (r: Option<Device>)
    ensures
        match device_of_line(line@) {
            Some(d) => r is Some && r.unwrap()@ == d,
            None => r is None,
        },
{
    if line.len() == 0 || has_prefix(line, &chars_of("List of devices")) || has_prefix(
        line,
        &chars_of("*"),
    ) || has_prefix(line, &chars_of("adb server")) {
        return None;
    }
    let ws = words_exec(line);
    if ws.len() < 2 {
        return None;
    }
    let serial = &ws[0];
    let model = find_last_tag(&ws, 2, &chars_of("model:"));
    let product = find_last_tag(&ws, 2, &chars_of("product:"));
    let wifi = if has_char(serial, ':') {
        let parts = split_chars(serial, ':');
        proof {
            lemma_split_on_nonempty(serial@, ':');
        }
        has_char(&parts[0], '.')
    } else {
        false
    };
    Some(Device {
        serial: string_of(serial),
        state: string_of(&ws[1]),
        model,
        product,
        wifi,
    })
}

/// Parses the output of `adb devices -l`:
///
/// ```text
/// List of devices attached
/// 0A1B2C3D   device product:foo model:Pixel_7 device:bar transport_id:1
/// 192.168.1.5:5555   device product:...
/// ```
///
/// One device per line that, trimmed, is not empty, not the header and not
/// a daemon message, and has at least two words.
pub fn parse_devices(output: &str) -> (r: Vec<Device>)
    ensures
        device_views(r@) == devices_of_output(output@),
{
    let cs = chars_of(output);
    let lines = split_chars(&cs, '\n');
    let ghost ls = split_on(output@, '\n');
    let mut devices: Vec<Device> = Vec::new();
    let mut i: usize = 0;
    assert(ls.take(0) == Seq::<Seq<char>>::empty());
    assert(device_views(devices@) =~= Seq::<DeviceView>::empty());
    while i < lines.len()
        invariant
            i <= lines.len(),
            views(lines@) == ls,
            device_views(devices@) == devices_of_lines(ls.take(i as int)),
        decreases lines.len() - i,
    {
        proof {
            assert(ls.take(i + 1).drop_last() == ls.take(i as int));
            assert(ls.take(i + 1).last() == lines@[i as int]@);
        }
        let line = trim_chars(&lines[i]);
        let ghost before = devices@;
        match parse_device_line(&line) {
            Some(d) => {
                devices.push(d);
                assert(device_views(devices@) =~= device_views(before).push(devices@.last()@));
            },
            None => {},
        }
        i = i + 1;
    }
    assert(ls.take(lines.len() as int) == ls);
    devices
}

} // verus!
