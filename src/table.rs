//! The device table: a header line, then one line per device with its index
//! right-aligned in three columns, four spaces and its description, then an
//! empty line.

use vstd::prelude::*;

use crate::device::DeviceInfo;

verus! {

pub open spec fn digit_char(d: nat) -> char {
    seq!['0', '1', '2', '3', '4', '5', '6', '7', '8', '9'][d as int]
}

/// The decimal digits of `n`, most significant first.
pub open spec fn decimal(n: nat) -> Seq<char>
    decreases n,
{
    if n < 10 {
        seq![digit_char(n)]
    } else {
        decimal(n / 10).push(digit_char(n % 10))
    }
}

/// `s` right-aligned in `width` columns: spaces before it when it is shorter.
pub open spec fn pad_left(s: Seq<char>, width: nat) -> Seq<char> {
    if s.len() < width {
        Seq::new((width - s.len()) as nat, |i: int| ' ') + s
    } else {
        s
    }
}

/// The line of one device, without its line break.
pub open spec fn device_line(d: DeviceInfo) -> Seq<char> {
    pad_left(decimal(d.index as nat), 3) + seq![' ', ' ', ' ', ' '] + d.description@
}

/// The lines of `devices`, each followed by a line break.
pub open spec fn device_lines(devices: Seq<DeviceInfo>) -> Seq<char>
    decreases devices.len(),
{
    if devices.len() == 0 {
        Seq::empty()
    } else {
        device_lines(devices.drop_last()) + device_line(devices.last()) + seq!['\n']
    }
}

/// The whole table printed for `devices`.
pub open spec fn table_text(devices: Seq<DeviceInfo>) -> Seq<char> {
    "Index  Name\n"@ + device_lines(devices) + seq!['\n']
}

fn digit_str(d: u32) -> (r: &'static str)
    requires
        d < 10,
    ensures
        r@ == seq![digit_char(d as nat)],
{
    proof {
        reveal_strlit("0");
        reveal_strlit("1");
        reveal_strlit("2");
        reveal_strlit("3");
        reveal_strlit("4");
        reveal_strlit("5");
        reveal_strlit("6");
        reveal_strlit("7");
        reveal_strlit("8");
        reveal_strlit("9");
    }
    let r = match d {
        0 => "0",
        1 => "1",
        2 => "2",
        3 => "3",
        4 => "4",
        5 => "5",
        6 => "6",
        7 => "7",
        8 => "8",
        _ => "9",
    };
    assert(r@ =~= seq![digit_char(d as nat)]);
    r
}

fn push_decimal(out: &mut String, n: u32)
    ensures
        final(out)@ == old(out)@ + decimal(n as nat),
    decreases n,
{
    if n < 10 {
        out.append(digit_str(n));
    } else {
        push_decimal(out, n / 10);
        out.append(digit_str(n % 10));
        assert(decimal(n as nat) == decimal((n / 10) as nat).push(digit_char((n % 10) as nat)));
        assert(old(out)@ + decimal(n as nat) =~= old(out)@ + decimal((n / 10) as nat) + seq![
            digit_char((n % 10) as nat),
        ]);
    }
}

/// The decimal form of `n`.
pub fn decimal_string(n: u32) -> (r: String)
    ensures
        r@ == decimal(n as nat),
{
    let mut s = String::new();
    push_decimal(&mut s, n);
    assert(s@ =~= decimal(n as nat));
    s
}

/// The line of one device, without its line break.
pub fn format_device_line(d: &DeviceInfo) -> (r: String)
    ensures
        r@ == device_line(*d),
{
    let num = decimal_string(d.index);
    let len = num.as_str().unicode_len();
    let mut line = String::new();
    let mut k: usize = len;
    proof {
        reveal_strlit(" ");
        reveal_strlit("    ");
    }
    while k < 3
        invariant
            len == num@.len(),
            len <= k <= 3 || (len > 3 && k == len),
            line@ == Seq::new((k - len) as nat, |i: int| ' '),
        decreases 3 - k,
    {
        line.append(" ");
        proof {
            reveal_strlit(" ");
        }
        assert(line@ =~= Seq::new((k + 1 - len) as nat, |i: int| ' '));
        k = k + 1;
    }
    line.append(num.as_str());
    line.append("    ");
    line.append(d.description.as_str());
    assert(line@ =~= device_line(*d));
    line
}

/// The whole table printed for `devices`.
pub fn format_table(devices: &Vec<DeviceInfo>) -> (r: String)
    ensures
        r@ == table_text(devices@),
{
    let mut text = String::new();
    text.append("Index  Name\n");
    proof {
        reveal_strlit("\n");
        assert(text@ =~= "Index  Name\n"@ + device_lines(devices@.subrange(0, 0)));
    }
    let mut i: usize = 0;
    while i < devices.len()
        invariant
            i <= devices@.len(),
            text@ == "Index  Name\n"@ + device_lines(devices@.subrange(0, i as int)),
        decreases devices@.len() - i,
    {
        let line = format_device_line(&devices[i]);
        text.append(line.as_str());
        text.append("\n");
        proof {
            let next = devices@.subrange(0, i + 1 as int);
            assert(next.drop_last() =~= devices@.subrange(0, i as int));
            assert(next.last() == devices@[i as int]);
            reveal_strlit("\n");
            assert(device_lines(next) == device_lines(devices@.subrange(0, i as int)) + device_line(
                devices@[i as int],
            ) + seq!['\n']);
        }
        assert(text@ =~= "Index  Name\n"@ + device_lines(devices@.subrange(0, i + 1 as int)));
        i = i + 1;
    }
    text.append("\n");
    assert(devices@.subrange(0, i as int) =~= devices@);
    assert(text@ =~= table_text(devices@));
    text
}

} // verus!
