//! Rendering of the job result payload as a JSON text: decimal numbers and
//! escaped strings over a fixed schema, so the stored payload is pinned
//! character by character.
use vstd::prelude::*;

verus! {

/// The decimal digit character for `d`.
pub open spec fn dchar(d: int) -> char {
    if d == 0 {
        '0'
    } else if d == 1 {
        '1'
    } else if d == 2 {
        '2'
    } else if d == 3 {
        '3'
    } else if d == 4 {
        '4'
    } else if d == 5 {
        '5'
    } else if d == 6 {
        '6'
    } else if d == 7 {
        '7'
    } else if d == 8 {
        '8'
    } else {
        '9'
    }
}

/// The decimal digit string of `n`, most significant digit first.
pub open spec fn dec_digits(n: int) -> Seq<char>
    decreases n,
{
    if n < 10 {
        seq![dchar(n)]
    } else {
        dec_digits(n / 10).push(dchar(n % 10))
    }
}

/// Relies on `String::push`: appends exactly one character.
#[verifier::external_body]
fn push_char(s: &mut String, c: char)
    ensures
        final(s)@ == old(s)@.push(c),
{
    s.push(c);
}

fn digit_char(d: u64) -> (r: char)
    requires
        d < 10,
    ensures
        r == dchar(d as int),
{
    match d {
        0 => '0',
        1 => '1',
        2 => '2',
        3 => '3',
        4 => '4',
        5 => '5',
        6 => '6',
        7 => '7',
        8 => '8',
        _ => '9',
    }
}

/// Render `n` in decimal.
pub fn u64_to_string(n: u64) -> (r: String)
    ensures
        r@ == dec_digits(n as int),
    decreases n,
{
    if n < 10 {
        let mut s = String::new();
        push_char(&mut s, digit_char(n));
        proof {
            assert(s@ =~= seq![dchar(n as int)]);
        }
        s
    } else {
        let mut s = u64_to_string(n / 10);
        push_char(&mut s, digit_char(n % 10));
        s
    }
}

/// A character as it appears inside a JSON string: quotes and backslashes
/// get a backslash escape.
pub open spec fn esc_char(c: char) -> Seq<char> {
    if c == '"' || c == '\\' {
        seq!['\\', c]
    } else {
        seq![c]
    }
}

/// The JSON-escaped form of a text.
pub open spec fn json_escape(s: Seq<char>) -> Seq<char>
    decreases s.len(),
{
    if s.len() == 0 {
        Seq::empty()
    } else {
        json_escape(s.drop_last()) + esc_char(s.last())
    }
}

/// Escape a text for embedding in a JSON string.
pub fn escape_json(s: &str) -> (r: String)
    ensures
        r@ == json_escape(s@),
{
    let v = crate::scale::chars_of(s);
    let mut out = String::new();
    let mut i: usize = 0;
    proof {
        assert(v@.take(0) =~= Seq::<char>::empty());
        assert(out@ =~= json_escape(v@.take(0)));
    }
    while i < v.len()
        invariant
            0 <= i <= v@.len(),
            v@ == s@,
            out@ == json_escape(v@.take(i as int)),
        decreases v@.len() - i,
    {
        let c = v[i];
        proof {
            assert(v@.take(i + 1).drop_last() =~= v@.take(i as int));
            assert(v@.take(i + 1).last() == v@[i as int]);
        }
        if c == '"' || c == '\\' {
            push_char(&mut out, '\\');
            push_char(&mut out, c);
        } else {
            push_char(&mut out, c);
        }
        proof {
            assert(out@ =~= json_escape(v@.take(i + 1)));
        }
        i = i + 1;
    }
    proof {
        assert(v@.take(v@.len() as int) =~= v@);
    }
    out
}

/// The result payload for one finished job, rendered over a fixed schema.
/// Measures carry three fractional digits; the conversion factor is the
/// exact rational `num/den`.
pub open spec fn spec_render(
    path: Seq<char>,
    pages: int,
    num: int,
    den: int,
    segments: int,
    detections: int,
    lineal_milli: int,
    area_milli: int,
) -> Seq<char> {
    "{\"pdf_path\":\""@ + json_escape(path) + "\",\"pages\":"@ + dec_digits(pages)
        + ",\"units_per_pixel_num\":"@ + dec_digits(num) + ",\"units_per_pixel_den\":"@
        + dec_digits(den) + ",\"vectors\":{\"segments\":"@ + dec_digits(segments)
        + "},\"summary\":{\"detections\":"@ + dec_digits(detections) + ",\"lineal_milli\":"@
        + dec_digits(lineal_milli) + ",\"area_milli\":"@ + dec_digits(area_milli)
        + "},\"items\":[]}"@
}

/// Render the result payload.
pub fn render_result(
    path: &str,
    pages: u32,
    num: u64,
    den: u64,
    segments: u64,
    detections: u64,
    lineal_milli: u64,
    area_milli: u64,
) -> (r: String)
    ensures
        r@ == spec_render(
            path@,
            pages as int,
            num as int,
            den as int,
            segments as int,
            detections as int,
            lineal_milli as int,
            area_milli as int,
        ),
{
    let mut s = String::from_str("{\"pdf_path\":\"");
    let esc = escape_json(path);
    s.append(esc.as_str());
    s.append("\",\"pages\":");
    let t = u64_to_string(pages as u64);
    s.append(t.as_str());
    s.append(",\"units_per_pixel_num\":");
    let t = u64_to_string(num);
    s.append(t.as_str());
    s.append(",\"units_per_pixel_den\":");
    let t = u64_to_string(den);
    s.append(t.as_str());
    s.append(",\"vectors\":{\"segments\":");
    let t = u64_to_string(segments);
    s.append(t.as_str());
    s.append("},\"summary\":{\"detections\":");
    let t = u64_to_string(detections);
    s.append(t.as_str());
    s.append(",\"lineal_milli\":");
    let t = u64_to_string(lineal_milli);
    s.append(t.as_str());
    s.append(",\"area_milli\":");
    let t = u64_to_string(area_milli);
    s.append(t.as_str());
    s.append("},\"items\":[]}");
    s
}

} // verus!
