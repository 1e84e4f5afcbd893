use vstd::prelude::*;

use crate::link::Link;
use crate::link::LinkModel;
use crate::render::lit_bytes;
use crate::store::bytes_eq;

verus! {

/// A mutation request: save a record, or delete one by name.
pub enum LinkRequest {
    Save(Link),
    Delete { name: Vec<u8> },
}

/// The mathematical model of a request.
pub ghost enum LinkRequestModel {
    Save(LinkModel),
    Delete { name: Seq<u8> },
}

impl View for LinkRequest {
    type V = LinkRequestModel;

    open spec fn view(&self) -> LinkRequestModel {
        match self {
            LinkRequest::Save(l) => LinkRequestModel::Save(l@),
            LinkRequest::Delete { name } => LinkRequestModel::Delete { name: name@ },
        }
    }
}

/// JSON whitespace.
pub open spec fn is_ws(c: u8) -> bool {
    c == 0x20 || c == 0x09 || c == 0x0a || c == 0x0d
}

/// An ASCII decimal digit.
pub open spec fn is_digit(c: u8) -> bool {
    0x30 <= c <= 0x39
}

/// An ASCII hexadecimal digit.
pub open spec fn is_hex(c: u8) -> bool {
    is_digit(c) || (0x61 <= c <= 0x66) || (0x41 <= c <= 0x46)
}

/// The value of a hexadecimal digit.
pub open spec fn hex_val(c: u8) -> int {
    if is_digit(c) {
        c - 0x30
    } else if 0x61 <= c <= 0x66 {
        c - 0x61 + 10
    } else {
        c - 0x41 + 10
    }
}

/// The position after any whitespace at `i`.
pub open spec fn sp_ws(b: Seq<u8>, i: int) -> int
    decreases b.len() - i,
{
    if 0 <= i < b.len() && is_ws(b[i]) {
        sp_ws(b, i + 1)
    } else {
        i
    }
}

/// The UTF-8 encoding of a scalar value below 0x10000.
pub open spec fn utf8_enc(c: int) -> Seq<u8> {
    if c < 0x80 {
        seq![c as u8]
    } else if c < 0x800 {
        seq![(0xc0 + c / 0x40) as u8, (0x80 + c % 0x40) as u8]
    } else {
        seq![(0xe0 + c / 0x1000) as u8, (0x80 + (c / 0x40) % 0x40) as u8, (0x80 + c % 0x40) as u8]
    }
}

/// Scan a string body starting inside the quotes at `i`, with `acc` the bytes
/// decoded so far; stops after the closing quote. Escapes are decoded; an
/// unknown escape, a surrogate scalar, a raw control byte or a missing quote
/// rejects the body.
pub open spec fn sp_string_body(b: Seq<u8>, i: int, acc: Seq<u8>) -> Option<(Seq<u8>, int)>
    decreases b.len() - i,
{
    if i < 0 || i >= b.len() {
        None
    } else if b[i] == 0x22 {
        Some((acc, i + 1))
    } else if b[i] == 0x5c {
        if i + 2 <= b.len() {
            let e = b[i + 1];
            if e == 0x22 {
                sp_string_body(b, i + 2, acc.push(0x22))
            } else if e == 0x5c {
                sp_string_body(b, i + 2, acc.push(0x5c))
            } else if e == 0x2f {
                sp_string_body(b, i + 2, acc.push(0x2f))
            } else if e == 0x62 {
                sp_string_body(b, i + 2, acc.push(0x08))
            } else if e == 0x66 {
                sp_string_body(b, i + 2, acc.push(0x0c))
            } else if e == 0x6e {
                sp_string_body(b, i + 2, acc.push(0x0a))
            } else if e == 0x72 {
                sp_string_body(b, i + 2, acc.push(0x0d))
            } else if e == 0x74 {
                sp_string_body(b, i + 2, acc.push(0x09))
            } else if e == 0x75 {
                if i + 6 <= b.len() && is_hex(b[i + 2]) && is_hex(b[i + 3]) && is_hex(b[i + 4])
                    && is_hex(b[i + 5]) {
                    let c = hex_val(b[i + 2]) * 0x1000 + hex_val(b[i + 3]) * 0x100 + hex_val(
                        b[i + 4],
                    ) * 0x10 + hex_val(b[i + 5]);
                    if 0xd800 <= c < 0xe000 {
                        None
                    } else {
                        sp_string_body(b, i + 6, acc + utf8_enc(c))
                    }
                } else {
                    None
                }
            } else {
                None
            }
        } else {
            None
        }
    } else if b[i] < 0x20 {
        None
    } else {
        sp_string_body(b, i + 1, acc.push(b[i]))
    }
}

/// Scan a quoted string at `i`: the decoded bytes and the position after the
/// closing quote.
pub open spec fn sp_string(b: Seq<u8>, i: int) -> Option<(Seq<u8>, int)> {
    if 0 <= i < b.len() && b[i] == 0x22 {
        sp_string_body(b, i + 1, Seq::empty())
    } else {
        None
    }
}

/// Scan further digits after `i`, `acc` being the value read so far; rejects
/// a value that overflows 32 bits.
pub open spec fn sp_digits(b: Seq<u8>, i: int, acc: u32) -> Option<(u32, int)>
    decreases b.len() - i,
{
    if 0 <= i < b.len() && is_digit(b[i]) {
        let v = acc * 10 + (b[i] - 0x30);
        if v > u32::MAX {
            None
        } else {
            sp_digits(b, i + 1, v as u32)
        }
    } else {
        Some((acc, i))
    }
}

/// Scan an unsigned decimal number at `i`: no sign, no leading zero, fitting
/// 32 bits.
pub open spec fn sp_number(b: Seq<u8>, i: int) -> Option<(u32, int)> {
    if 0 <= i < b.len() && is_digit(b[i]) {
        if b[i] == 0x30 {
            if i + 1 < b.len() && is_digit(b[i + 1]) {
                None
            } else {
                Some((0, i + 1))
            }
        } else {
            sp_digits(b, i, 0)
        }
    } else {
        None
    }
}

/// The fields of a record object gathered so far.
pub ghost struct FieldsModel {
    pub name: Option<Seq<u8>>,
    pub url: Option<Seq<u8>>,
    pub image: Option<Seq<u8>>,
    pub description: Option<Seq<u8>>,
    pub order: Option<u32>,
}

/// How many fields are still unset.
pub open spec fn unset_count(acc: FieldsModel) -> nat {
    (if acc.name is None {
        1nat
    } else {
        0nat
    }) + (if acc.url is None {
        1nat
    } else {
        0nat
    }) + (if acc.image is None {
        1nat
    } else {
        0nat
    }) + (if acc.description is None {
        1nat
    } else {
        0nat
    }) + (if acc.order is None {
        1nat
    } else {
        0nat
    })
}

/// Scan the members of a record object from the first key at `i` to the
/// closing brace. Fields may come in any order; a duplicate, unknown or
/// ill-typed field rejects the object.
pub open spec fn sp_save_members(b: Seq<u8>, i: int, acc: FieldsModel) -> Option<
    (FieldsModel, int),
>
    decreases unset_count(acc),
{
    match sp_string(b, i) {
        None => None,
        Some((key, j)) => {
            let j1 = sp_ws(b, j);
            if !(0 <= j1 < b.len() && b[j1] == 0x3a) {
                None
            } else {
                let j2 = sp_ws(b, j1 + 1);
                let step: Option<(FieldsModel, int)> = if key == lit_bytes("name") {
                    if acc.name is Some {
                        None
                    } else {
                        match sp_string(b, j2) {
                            None => None,
                            Some((v, j3)) => Some((FieldsModel { name: Some(v), ..acc }, j3)),
                        }
                    }
                } else if key == lit_bytes("url") {
                    if acc.url is Some {
                        None
                    } else {
                        match sp_string(b, j2) {
                            None => None,
                            Some((v, j3)) => Some((FieldsModel { url: Some(v), ..acc }, j3)),
                        }
                    }
                } else if key == lit_bytes("image") {
                    if acc.image is Some {
                        None
                    } else {
                        match sp_string(b, j2) {
                            None => None,
                            Some((v, j3)) => Some((FieldsModel { image: Some(v), ..acc }, j3)),
                        }
                    }
                } else if key == lit_bytes("description") {
                    if acc.description is Some {
                        None
                    } else {
                        match sp_string(b, j2) {
                            None => None,
                            Some((v, j3)) => Some(
                                (FieldsModel { description: Some(v), ..acc }, j3),
                            ),
                        }
                    }
                } else if key == lit_bytes("order") {
                    if acc.order is Some {
                        None
                    } else {
                        match sp_number(b, j2) {
                            None => None,
                            Some((v, j3)) => Some((FieldsModel { order: Some(v), ..acc }, j3)),
                        }
                    }
                } else {
                    None
                };
                match step {
                    None => None,
                    Some((acc2, j3)) => {
                        let j4 = sp_ws(b, j3);
                        if 0 <= j4 < b.len() && b[j4] == 0x2c {
                            sp_save_members(b, sp_ws(b, j4 + 1), acc2)
                        } else if 0 <= j4 < b.len() && b[j4] == 0x7d {
                            Some((acc2, j4 + 1))
                        } else {
                            None
                        }
                    },
                }
            }
        },
    }
}

/// The record of a completely gathered field set.
pub open spec fn sp_finalize(acc: FieldsModel) -> Option<LinkModel> {
    if acc.name is Some && acc.url is Some && acc.image is Some && acc.description is Some
        && acc.order is Some {
        Some(
            LinkModel {
                name: acc.name->Some_0,
                url: acc.url->Some_0,
                image: acc.image->Some_0,
                description: acc.description->Some_0,
                order: acc.order->Some_0,
            },
        )
    } else {
        None
    }
}

/// Scan a record object at `i`: a brace-delimited object holding exactly the
/// five fields of a record, in any order.
pub open spec fn sp_link_obj(b: Seq<u8>, i: int) -> Option<(LinkModel, int)> {
    if !(0 <= i < b.len() && b[i] == 0x7b) {
        None
    } else {
        let acc0 = FieldsModel {
            name: None,
            url: None,
            image: None,
            description: None,
            order: None,
        };
        match sp_save_members(b, sp_ws(b, i + 1), acc0) {
            None => None,
            Some((acc, j)) => match sp_finalize(acc) {
                None => None,
                Some(l) => Some((l, j)),
            },
        }
    }
}

/// Scan a deletion object at `i`: a brace-delimited object holding exactly
/// the member `"name"` with a string value.
pub open spec fn sp_delete_obj(b: Seq<u8>, i: int) -> Option<(Seq<u8>, int)> {
    if !(0 <= i < b.len() && b[i] == 0x7b) {
        None
    } else {
        let j = sp_ws(b, i + 1);
        match sp_string(b, j) {
            None => None,
            Some((key, j1)) => {
                if key != lit_bytes("name") {
                    None
                } else {
                    let j2 = sp_ws(b, j1);
                    if !(0 <= j2 < b.len() && b[j2] == 0x3a) {
                        None
                    } else {
                        match sp_string(b, sp_ws(b, j2 + 1)) {
                            None => None,
                            Some((v, j3)) => {
                                let j4 = sp_ws(b, j3);
                                if 0 <= j4 < b.len() && b[j4] == 0x7d {
                                    Some((v, j4 + 1))
                                } else {
                                    None
                                }
                            },
                        }
                    }
                }
            },
        }
    }
}

/// Decode a whole request body: a single-key object whose key names the
/// operation, `"Save"` carrying a record object, `"Delete"` a deletion
/// object, with nothing but whitespace after it.
pub open spec fn sp_request(b: Seq<u8>) -> Option<LinkRequestModel> {
    let i = sp_ws(b, 0);
    if !(0 <= i < b.len() && b[i] == 0x7b) {
        None
    } else {
        let j = sp_ws(b, i + 1);
        match sp_string(b, j) {
            None => None,
            Some((key, j1)) => {
                let j2 = sp_ws(b, j1);
                if !(0 <= j2 < b.len() && b[j2] == 0x3a) {
                    None
                } else {
                    let j3 = sp_ws(b, j2 + 1);
                    if key == lit_bytes("Save") {
                        match sp_link_obj(b, j3) {
                            None => None,
                            Some((l, j4)) => {
                                let j5 = sp_ws(b, j4);
                                if 0 <= j5 < b.len() && b[j5] == 0x7d && sp_ws(b, j5 + 1)
                                    == b.len() {
                                    Some(LinkRequestModel::Save(l))
                                } else {
                                    None
                                }
                            },
                        }
                    } else if key == lit_bytes("Delete") {
                        match sp_delete_obj(b, j3) {
                            None => None,
                            Some((v, j4)) => {
                                let j5 = sp_ws(b, j4);
                                if 0 <= j5 < b.len() && b[j5] == 0x7d && sp_ws(b, j5 + 1)
                                    == b.len() {
                                    Some(LinkRequestModel::Delete { name: v })
                                } else {
                                    None
                                }
                            },
                        }
                    } else {
                        None
                    }
                }
            },
        }
    }
}


/// The position after any whitespace at `i`.
fn skip_ws(b: &[u8], i: usize) -> (r: usize)
    requires
        i <= b@.len(),
    ensures
        r as int == sp_ws(b@, i as int),
        i <= r <= b@.len(),
{
    let mut k: usize = i;
    while k < b.len() && (b[k] == 0x20 || b[k] == 0x09 || b[k] == 0x0a || b[k] == 0x0d)
        invariant
            i <= k <= b@.len(),
            sp_ws(b@, i as int) == sp_ws(b@, k as int),
        decreases b@.len() - k,
    {
        k = k + 1;
    }
    k
}

/// True when `c` is a hexadecimal digit.
fn hex_ok(c: u8) -> (r: bool)
    ensures
        r == is_hex(c),
{
    (c >= 0x30 && c <= 0x39) || (c >= 0x61 && c <= 0x66) || (c >= 0x41 && c <= 0x46)
}

/// The value of a hexadecimal digit.
fn hex_digit(c: u8) -> (r: u32)
    requires
        is_hex(c),
    ensures
        r as int == hex_val(c),
{
    if c <= 0x39 {
        (c - 0x30) as u32
    } else if c >= 0x61 {
        (c - 0x61) as u32 + 10
    } else {
        (c - 0x41) as u32 + 10
    }
}

/// Scan a string body as `sp_string_body` reads it.
fn parse_string_body(b: &[u8], i: usize, acc: Vec<u8>) -> (r: Option<(Vec<u8>, usize)>)
    ensures
        match r {
            Some(p) => sp_string_body(b@, i as int, acc@) == Some((p.0@, p.1 as int)) && p.1
                <= b@.len(),
            None => sp_string_body(b@, i as int, acc@) is None,
        },
    decreases b@.len() - i,
{
    if i >= b.len() {
        return None;
    }
    let c = b[i];
    if c == 0x22 {
        return Some((acc, i + 1));
    }
    if c == 0x5c {
        if b.len() - i < 2 {
            return None;
        }
        let e = b[i + 1];
        let mut acc2 = acc;
        if e == 0x22 {
            acc2.push(0x22);
            return parse_string_body(b, i + 2, acc2);
        }
        if e == 0x5c {
            acc2.push(0x5c);
            return parse_string_body(b, i + 2, acc2);
        }
        if e == 0x2f {
            acc2.push(0x2f);
            return parse_string_body(b, i + 2, acc2);
        }
        if e == 0x62 {
            acc2.push(0x08);
            return parse_string_body(b, i + 2, acc2);
        }
        if e == 0x66 {
            acc2.push(0x0c);
            return parse_string_body(b, i + 2, acc2);
        }
        if e == 0x6e {
            acc2.push(0x0a);
            return parse_string_body(b, i + 2, acc2);
        }
        if e == 0x72 {
            acc2.push(0x0d);
            return parse_string_body(b, i + 2, acc2);
        }
        if e == 0x74 {
            acc2.push(0x09);
            return parse_string_body(b, i + 2, acc2);
        }
        if e == 0x75 {
            if b.len() - i < 6 {
                return None;
            }
            if !(hex_ok(b[i + 2]) && hex_ok(b[i + 3]) && hex_ok(b[i + 4]) && hex_ok(b[i + 5])) {
                return None;
            }
            let cval: u32 = hex_digit(b[i + 2]) * 0x1000 + hex_digit(b[i + 3]) * 0x100 + hex_digit(
                b[i + 4],
            ) * 0x10 + hex_digit(b[i + 5]);
            if cval >= 0xd800 && cval < 0xe000 {
                return None;
            }
            if cval < 0x80 {
                acc2.push(cval as u8);
            } else if cval < 0x800 {
                acc2.push((0xc0 + cval / 0x40) as u8);
                acc2.push((0x80 + cval % 0x40) as u8);
            } else {
                acc2.push((0xe0 + cval / 0x1000) as u8);
                acc2.push((0x80 + (cval / 0x40) % 0x40) as u8);
                acc2.push((0x80 + cval % 0x40) as u8);
            }
            proof {
                assert(acc2@ =~= acc@ + utf8_enc(cval as int));
            }
            return parse_string_body(b, i + 6, acc2);
        }
        return None;
    }
    if c < 0x20 {
        return None;
    }
    let mut acc2 = acc;
    acc2.push(c);
    parse_string_body(b, i + 1, acc2)
}

/// Scan a quoted string as `sp_string` reads it.
fn parse_string(b: &[u8], i: usize) -> (r: Option<(Vec<u8>, usize)>)
    ensures
        match r {
            Some(p) => sp_string(b@, i as int) == Some((p.0@, p.1 as int)) && p.1 <= b@.len(),
            None => sp_string(b@, i as int) is None,
        },
{
    if i < b.len() && b[i] == 0x22 {
        let acc: Vec<u8> = Vec::new();
        parse_string_body(b, i + 1, acc)
    } else {
        None
    }
}

/// Scan further digits as `sp_digits` reads them.
fn parse_digits(b: &[u8], i: usize, acc: u32) -> (r: Option<(u32, usize)>)
    requires
        i <= b@.len(),
    ensures
        match r {
            Some(p) => sp_digits(b@, i as int, acc) == Some((p.0, p.1 as int)) && p.1 <= b@.len(),
            None => sp_digits(b@, i as int, acc) is None,
        },
    decreases b@.len() - i,
{
    if i < b.len() && b[i] >= 0x30 && b[i] <= 0x39 {
        let d = (b[i] - 0x30) as u32;
        let v: u64 = acc as u64 * 10 + d as u64;
        if v > 0xffff_ffff {
            None
        } else {
            parse_digits(b, i + 1, v as u32)
        }
    } else {
        Some((acc, i))
    }
}

/// Scan a number as `sp_number` reads it.
fn parse_number(b: &[u8], i: usize) -> (r: Option<(u32, usize)>)
    ensures
        match r {
            Some(p) => sp_number(b@, i as int) == Some((p.0, p.1 as int)) && p.1 <= b@.len(),
            None => sp_number(b@, i as int) is None,
        },
{
    if i < b.len() && b[i] >= 0x30 && b[i] <= 0x39 {
        if b[i] == 0x30 {
            if i + 1 < b.len() && b[i + 1] >= 0x30 && b[i + 1] <= 0x39 {
                None
            } else {
                Some((0, i + 1))
            }
        } else {
            parse_digits(b, i, 0)
        }
    } else {
        None
    }
}

/// The fields of a record object gathered so far.
struct Fields {
    name: Option<Vec<u8>>,
    url: Option<Vec<u8>>,
    image: Option<Vec<u8>>,
    description: Option<Vec<u8>>,
    order: Option<u32>,
}

impl View for Fields {
    type V = FieldsModel;

    closed spec fn view(&self) -> FieldsModel {
        FieldsModel {
            name: match self.name {
                Some(ref v) => Some(v@),
                None => None,
            },
            url: match self.url {
                Some(ref v) => Some(v@),
                None => None,
            },
            image: match self.image {
                Some(ref v) => Some(v@),
                None => None,
            },
            description: match self.description {
                Some(ref v) => Some(v@),
                None => None,
            },
            order: self.order,
        }
    }
}

/// Scan record-object members as `sp_save_members` reads them.
fn parse_save_members(b: &[u8], i: usize, acc: Fields) -> (r: Option<(Fields, usize)>)
    requires
        i <= b@.len(),
    ensures
        match r {
            Some(p) => sp_save_members(b@, i as int, acc@) == Some((p.0@, p.1 as int)) && p.1
                <= b@.len(),
            None => sp_save_members(b@, i as int, acc@) is None,
        },
    decreases unset_count(acc@),
{
    let (key, j) = match parse_string(b, i) {
        None => { return None; },
        Some(p) => p,
    };
    let j1 = skip_ws(b, j);
    if j1 >= b.len() || b[j1] != 0x3a {
        return None;
    }
    let j2 = skip_ws(b, j1 + 1);
    let acc2: Fields;
    let j3: usize;
    if bytes_eq(key.as_slice(), "name".as_bytes()) {
        if acc.name.is_some() {
            return None;
        }
        match parse_string(b, j2) {
            None => { return None; },
            Some((v, p)) => {
                acc2 = Fields {
                    name: Some(v),
                    url: acc.url,
                    image: acc.image,
                    description: acc.description,
                    order: acc.order,
                };
                j3 = p;
            },
        }
    } else if bytes_eq(key.as_slice(), "url".as_bytes()) {
        if acc.url.is_some() {
            return None;
        }
        match parse_string(b, j2) {
            None => { return None; },
            Some((v, p)) => {
                acc2 = Fields {
                    name: acc.name,
                    url: Some(v),
                    image: acc.image,
                    description: acc.description,
                    order: acc.order,
                };
                j3 = p;
            },
        }
    } else if bytes_eq(key.as_slice(), "image".as_bytes()) {
        if acc.image.is_some() {
            return None;
        }
        match parse_string(b, j2) {
            None => { return None; },
            Some((v, p)) => {
                acc2 = Fields {
                    name: acc.name,
                    url: acc.url,
                    image: Some(v),
                    description: acc.description,
                    order: acc.order,
                };
                j3 = p;
            },
        }
    } else if bytes_eq(key.as_slice(), "description".as_bytes()) {
        if acc.description.is_some() {
            return None;
        }
        match parse_string(b, j2) {
            None => { return None; },
            Some((v, p)) => {
                acc2 = Fields {
                    name: acc.name,
                    url: acc.url,
                    image: acc.image,
                    description: Some(v),
                    order: acc.order,
                };
                j3 = p;
            },
        }
    } else if bytes_eq(key.as_slice(), "order".as_bytes()) {
        if acc.order.is_some() {
            return None;
        }
        match parse_number(b, j2) {
            None => { return None; },
            Some((v, p)) => {
                acc2 = Fields {
                    name: acc.name,
                    url: acc.url,
                    image: acc.image,
                    description: acc.description,
                    order: Some(v),
                };
                j3 = p;
            },
        }
    } else {
        return None;
    }
    let j4 = skip_ws(b, j3);
    if j4 < b.len() && b[j4] == 0x2c {
        let j5 = skip_ws(b, j4 + 1);
        parse_save_members(b, j5, acc2)
    } else if j4 < b.len() && b[j4] == 0x7d {
        Some((acc2, j4 + 1))
    } else {
        None
    }
}

/// Scan a record object as `sp_link_obj` reads it.
fn parse_link_obj(b: &[u8], i: usize) -> (r: Option<(Link, usize)>)
    ensures
        match r {
            Some(p) => sp_link_obj(b@, i as int) == Some((p.0@, p.1 as int)) && p.1 <= b@.len(),
            None => sp_link_obj(b@, i as int) is None,
        },
{
    if !(i < b.len() && b[i] == 0x7b) {
        return None;
    }
    let acc0 = Fields { name: None, url: None, image: None, description: None, order: None };
    let j = skip_ws(b, i + 1);
    match parse_save_members(b, j, acc0) {
        None => None,
        Some((acc, k)) => {
            match (acc.name, acc.url, acc.image, acc.description, acc.order) {
                (Some(name), Some(url), Some(image), Some(description), Some(order)) => Some(
                    ((Link { name, url, image, description, order }), k),
                ),
                _ => None,
            }
        },
    }
}

/// Scan a deletion object as `sp_delete_obj` reads it.
fn parse_delete_obj(b: &[u8], i: usize) -> (r: Option<(Vec<u8>, usize)>)
    ensures
        match r {
            Some(p) => sp_delete_obj(b@, i as int) == Some((p.0@, p.1 as int)) && p.1 <= b@.len(),
            None => sp_delete_obj(b@, i as int) is None,
        },
{
    if !(i < b.len() && b[i] == 0x7b) {
        return None;
    }
    let j = skip_ws(b, i + 1);
    let (key, j1) = match parse_string(b, j) {
        None => { return None; },
        Some(p) => p,
    };
    if !bytes_eq(key.as_slice(), "name".as_bytes()) {
        return None;
    }
    let j2 = skip_ws(b, j1);
    if !(j2 < b.len() && b[j2] == 0x3a) {
        return None;
    }
    let j2b = skip_ws(b, j2 + 1);
    let (v, j3) = match parse_string(b, j2b) {
        None => { return None; },
        Some(p) => p,
    };
    let j4 = skip_ws(b, j3);
    if j4 < b.len() && b[j4] == 0x7d {
        Some((v, j4 + 1))
    } else {
        None
    }
}

/// Decode a request body. Returns the request exactly when the body reads as
/// the JSON operation envelope `sp_request` describes; anything else is
/// rejected.
pub fn decode_request(b: &[u8]) -> (r: Option<LinkRequest>)
    ensures
        match r {
            Some(req) => sp_request(b@) == Some(req@),
            None => sp_request(b@) is None,
        },
{
    let i = skip_ws(b, 0);
    if !(i < b.len() && b[i] == 0x7b) {
        return None;
    }
    let j = skip_ws(b, i + 1);
    let (key, j1) = match parse_string(b, j) {
        None => { return None; },
        Some(p) => p,
    };
    let j2 = skip_ws(b, j1);
    if !(j2 < b.len() && b[j2] == 0x3a) {
        return None;
    }
    let j3 = skip_ws(b, j2 + 1);
    if bytes_eq(key.as_slice(), "Save".as_bytes()) {
        match parse_link_obj(b, j3) {
            None => None,
            Some((l, j4)) => {
                let j5 = skip_ws(b, j4);
                if j5 < b.len() && b[j5] == 0x7d && skip_ws(b, j5 + 1) == b.len() {
                    Some(LinkRequest::Save(l))
                } else {
                    None
                }
            },
        }
    } else if bytes_eq(key.as_slice(), "Delete".as_bytes()) {
        match parse_delete_obj(b, j3) {
            None => None,
            Some((v, j4)) => {
                let j5 = skip_ws(b, j4);
                if j5 < b.len() && b[j5] == 0x7d && skip_ws(b, j5 + 1) == b.len() {
                    Some(LinkRequest::Delete { name: v })
                } else {
                    None
                }
            },
        }
    } else {
        None
    }
}

} // verus!
