use vstd::prelude::*;
use vstd::string::StringSliceAdditionalSpecFns;
use vstd::utf8::{decode_utf8, valid_utf8};

use crate::errors::FixSerializeError;
use crate::tags::{
    FieldView, GroupView, bytes_equal, find_group, groups_view, lemma_lookup_at, lookup,
    split_fix_to_tags, tag_groups,
};
use crate::utils::{
    check_sum_bytes, check_sum_digits, chunk, compile_fix_chunk, decimal,
    decimal_digits, display_bytes, signed_decimal, signed_decimal_digits, text_from_bytes,
    bytes_to_fix_string,
};

verus! {

/// Tag of the protocol version, the first field of a message.
pub const FIX_VERSION: u32 = 8;

/// Tag of the body length, the second field of a message.
pub const FIX_BODY_LEN: u32 = 9;

/// Tag of the checksum, the last field of a message.
pub const FIX_CHECK_SUM: u32 = 10;

/// Tag of the message type, the first field of the body.
pub const FIX_MESSAGE_TYPE: u32 = 35;

/// The wire form of a tag number.
pub open spec fn tag_bytes(t: u32) -> Seq<u8> {
    decimal(t as nat)
}

/// Tags that frame a message and are never kept as body fields.
pub open spec fn is_framing_tag(t: Seq<u8>) -> bool {
    t == tag_bytes(FIX_VERSION) || t == tag_bytes(FIX_BODY_LEN) || t == tag_bytes(FIX_CHECK_SUM)
}

/// A message as values: its version, its message type, and its body fields in order.
pub struct MessageView {
    pub version: Seq<u8>,
    pub message_type: Seq<u8>,
    pub fields: Seq<FieldView>,
}

/// The wire form of a sequence of fields, one chunk after another.
pub open spec fn chunks(f: Seq<FieldView>) -> Seq<u8>
    decreases f.len(),
{
    if f.len() == 0 {
        seq![]
    } else {
        chunks(f.drop_last()) + chunk(f.last().0, f.last().1)
    }
}

/// The values of the fields with tag `t`, in order.
pub open spec fn field_values(f: Seq<FieldView>, t: Seq<u8>) -> Seq<Seq<u8>>
    decreases f.len(),
{
    if f.len() == 0 {
        seq![]
    } else if f.last().0 == t {
        field_values(f.drop_last(), t).push(f.last().1)
    } else {
        field_values(f.drop_last(), t)
    }
}

/// The body: the message-type field, then every body field.
pub open spec fn body_bytes(m: MessageView) -> Seq<u8> {
    chunk(tag_bytes(FIX_MESSAGE_TYPE), m.message_type) + chunks(m.fields)
}

/// Everything that the checksum covers: version field, body-length field, body.
pub open spec fn checked_bytes(m: MessageView) -> Seq<u8> {
    chunk(tag_bytes(FIX_VERSION), m.version) + chunk(
        tag_bytes(FIX_BODY_LEN),
        decimal(body_bytes(m).len()),
    ) + body_bytes(m)
}

/// The wire form of a message: the checked bytes, then the checksum field.
pub open spec fn encoding(m: MessageView) -> Seq<u8> {
    checked_bytes(m) + chunk(tag_bytes(FIX_CHECK_SUM), check_sum_digits(checked_bytes(m)))
}

/// The body fields that one group gives: none for a framing tag; for the message type,
/// all values but the first, which is the header's; otherwise all of them.
pub open spec fn group_body_fields(e: GroupView) -> Seq<FieldView> {
    if is_framing_tag(e.0) {
        seq![]
    } else if e.0 == tag_bytes(FIX_MESSAGE_TYPE) && e.1.len() > 0 {
        e.1.subrange(1, e.1.len() as int).map_values(|v: Seq<u8>| (e.0, v))
    } else {
        e.1.map_values(|v: Seq<u8>| (e.0, v))
    }
}

/// Body fields of a decoded message, group after group.
pub open spec fn body_fields_of(g: Seq<GroupView>) -> Seq<FieldView>
    decreases g.len(),
{
    if g.len() == 0 {
        seq![]
    } else {
        body_fields_of(g.drop_last()) + group_body_fields(g.last())
    }
}

/// The result of decoding buffer `b`, with or without checksum validation.
pub open spec fn decoding(b: Seq<u8>, validate: bool) -> Result<MessageView, FixSerializeError> {
    let g = tag_groups(b);
    let versions = lookup(g, tag_bytes(FIX_VERSION));
    let types = lookup(g, tag_bytes(FIX_MESSAGE_TYPE));
    let sums = lookup(g, tag_bytes(FIX_CHECK_SUM));
    if versions.len() == 0 {
        Err(FixSerializeError::VersionTagNotFoundInSource)
    } else if types.len() == 0 {
        Err(FixSerializeError::MessageTypeTagNotFoundInSource)
    } else if validate && sums.len() == 0 {
        Err(FixSerializeError::CheckSumTagNotFoundInSource)
    } else {
        let m = MessageView { version: versions[0], message_type: types[0], fields: body_fields_of(g) };
        if validate && sums[0] != check_sum_digits(checked_bytes(m)) {
            Err(FixSerializeError::InvalidCheckSum)
        } else {
            Ok(m)
        }
    }
}

/// The text of a value: `None` when it is not valid UTF-8.
pub open spec fn value_text(v: Seq<u8>) -> Option<Seq<char>> {
    if valid_utf8(v) {
        Some(decode_utf8(v))
    } else {
        None
    }
}

pub open spec fn fields_view(d: Seq<(Vec<u8>, Vec<u8>)>) -> Seq<FieldView> {
    d.map_values(|f: (Vec<u8>, Vec<u8>)| (f.0@, f.1@))
}

pub proof fn lemma_field_values_add(a: Seq<FieldView>, b: Seq<FieldView>, t: Seq<u8>)
    ensures
        field_values(a + b, t) == field_values(a, t) + field_values(b, t),
    decreases b.len(),
{
    if b.len() == 0 {
        assert(a + b =~= a);
        assert(field_values(a, t) + field_values(b, t) =~= field_values(a, t));
    } else {
        lemma_field_values_add(a, b.drop_last(), t);
        assert((a + b).drop_last() =~= a + b.drop_last());
        assert((a + b).last() == b.last());
        if b.last().0 == t {
            assert(field_values(a, t) + field_values(b, t) =~= (field_values(a, t) + field_values(
                b.drop_last(),
                t,
            )).push(b.last().1));
        }
    }
}

proof fn lemma_find_lookup(g: Seq<GroupView>, at: Option<usize>, t: Seq<u8>)
    requires
        crate::tags::distinct_tags(g),
        match at {
            Some(i) => i < g.len() && g[i as int].0 == t,
            None => forall|i: int| 0 <= i < g.len() ==> #[trigger] g[i].0 != t,
        },
    ensures
        match at {
            Some(i) => lookup(g, t) == g[i as int].1,
            None => lookup(g, t) == Seq::<Seq<u8>>::empty(),
        },
{
    if let Some(i) = at {
        lemma_lookup_at(g, i as int, t);
    }
}

/// A FIX message: version, message type and body fields, with the body-length and
/// checksum fields made on encoding.
#[derive(Clone)]
pub struct FixMessageBuilder {
    fix_version: Vec<u8>,
    message_type: Vec<u8>,
    data: Vec<(Vec<u8>, Vec<u8>)>,
}

impl View for FixMessageBuilder {
    type V = MessageView;

    closed spec fn view(&self) -> MessageView {
        MessageView {
            version: self.fix_version@,
            message_type: self.message_type@,
            fields: fields_view(self.data@),
        }
    }
}

fn copy_bytes(v: &[u8]) -> (r: Vec<u8>)
    ensures
        r@ == v@,
{
    let mut r: Vec<u8> = Vec::new();
    r.extend_from_slice(v);
    r
}

impl FixMessageBuilder {
    /// Decodes one framed message.
    ///
    /// Fails when the version (tag 8) or the message type (tag 35) is missing; with
    /// `check_sum_validation`, also when the checksum (tag 10) is missing or differs from
    /// the checksum of the decoded message. Every field but the framing ones (tags 8, 9,
    /// 10) and the first message type becomes a body field, tag after tag in order of
    /// first appearance, each tag's values in wire order.
    pub fn from_bytes(payload: &[u8], check_sum_validation: bool) -> (r: Result<Self, FixSerializeError>)
        ensures
            match r {
                Ok(m) => decoding(payload@, check_sum_validation) == Ok::<MessageView, FixSerializeError>(m@),
                Err(e) => decoding(payload@, check_sum_validation) == Err::<MessageView, FixSerializeError>(e),
            },
    {
        let tags = split_fix_to_tags(payload);
        let ghost g = groups_view(tags@);
        let version_tag = decimal_digits(FIX_VERSION as u64);
        let len_tag = decimal_digits(FIX_BODY_LEN as u64);
        let sum_tag = decimal_digits(FIX_CHECK_SUM as u64);
        let type_tag = decimal_digits(FIX_MESSAGE_TYPE as u64);
        let version_at = find_group(&tags, version_tag.as_slice());
        let type_at = find_group(&tags, type_tag.as_slice());
        let sum_at = find_group(&tags, sum_tag.as_slice());
        proof {
            lemma_find_lookup(g, version_at, tag_bytes(FIX_VERSION));
            lemma_find_lookup(g, type_at, tag_bytes(FIX_MESSAGE_TYPE));
            lemma_find_lookup(g, sum_at, tag_bytes(FIX_CHECK_SUM));
        }
        let vi = match version_at {
            None => {
                return Err(FixSerializeError::VersionTagNotFoundInSource);
            },
            Some(i) => i,
        };
        let ti = match type_at {
            None => {
                return Err(FixSerializeError::MessageTypeTagNotFoundInSource);
            },
            Some(i) => i,
        };
        if check_sum_validation && sum_at.is_none() {
            return Err(FixSerializeError::CheckSumTagNotFoundInSource);
        }
        assert(g[vi as int].1.len() > 0);
        assert(g[ti as int].1.len() > 0);
        let mut result = FixMessageBuilder {
            fix_version: copy_bytes(tags[vi].1[0].as_slice()),
            message_type: copy_bytes(tags[ti].1[0].as_slice()),
            data: Vec::new(),
        };
        assert(fields_view(result.data@) =~= body_fields_of(g.subrange(0, 0)));
        let mut k: usize = 0;
        while k < tags.len()
            invariant
                k <= tags@.len(),
                g == groups_view(tags@),
                forall|i: int| 0 <= i < g.len() ==> (#[trigger] g[i]).1.len() > 0,
                version_tag@ == tag_bytes(FIX_VERSION),
                len_tag@ == tag_bytes(FIX_BODY_LEN),
                sum_tag@ == tag_bytes(FIX_CHECK_SUM),
                type_tag@ == tag_bytes(FIX_MESSAGE_TYPE),
                result@.version == g[vi as int].1[0],
                result@.message_type == g[ti as int].1[0],
                vi < g.len(),
                ti < g.len(),
                result@.fields == body_fields_of(g.subrange(0, k as int)),
            decreases tags@.len() - k,
        {
            let ghost e = g[k as int];
            assert(g.subrange(0, k as int + 1).drop_last() =~= g.subrange(0, k as int));
            let tag = tags[k].0.as_slice();
            let framing = bytes_equal(tag, version_tag.as_slice()) || bytes_equal(tag, len_tag.as_slice())
                || bytes_equal(tag, sum_tag.as_slice());
            if framing {
                assert(group_body_fields(e) =~= Seq::<FieldView>::empty());
                assert(body_fields_of(g.subrange(0, k as int)) + group_body_fields(e) =~= body_fields_of(g.subrange(0, k as int)));
            } else {
                let start: usize = if bytes_equal(tag, type_tag.as_slice()) { 1 } else { 0 };
                let values = &tags[k].1;
                assert(e.1 == values@.map_values(|v: Vec<u8>| v@));
                let mut j: usize = start;
                while j < values.len()
                    invariant
                        start <= j <= values@.len(),
                        start <= 1,
                        values@.len() > 0,
                        e.1 == values@.map_values(|v: Vec<u8>| v@),
                        e.0 == tag@,
                        result@.version == g[vi as int].1[0],
                        result@.message_type == g[ti as int].1[0],
                        result@.fields == body_fields_of(g.subrange(0, k as int)) + e.1.subrange(start as int, j as int).map_values(|v: Seq<u8>| (e.0, v)),
                    decreases values@.len() - j,
                {
                    let ghost before = result@.fields;
                    result.with_value_as_bytes(copy_bytes(tag), copy_bytes(values[j].as_slice()));
                    assert(e.1.subrange(start as int, j as int + 1).map_values(|v: Seq<u8>| (e.0, v)) =~= e.1.subrange(start as int, j as int).map_values(|v: Seq<u8>| (e.0, v)).push((e.0, e.1[j as int])));
                    assert(result@.fields =~= body_fields_of(g.subrange(0, k as int)) + e.1.subrange(start as int, j as int + 1).map_values(|v: Seq<u8>| (e.0, v)));
                    j += 1;
                }
                assert(e.1.len() == values@.len());
                if start == 0 {
                    assert(e.1.subrange(0, j as int) =~= e.1);
                }
                assert(group_body_fields(e) =~= e.1.subrange(start as int, j as int).map_values(|v: Seq<u8>| (e.0, v)));
            }
            k += 1;
        }
        assert(g.subrange(0, k as int) =~= g);
        if check_sum_validation {
            if let Some(si) = sum_at {
                let computed = result.calculate_check_sum();
                assert(g[si as int].1.len() > 0);
                if !bytes_equal(tags[si].1[0].as_slice(), computed.as_slice()) {
                    return Err(FixSerializeError::InvalidCheckSum);
                }
            }
        }
        Ok(result)
    }

    /// An empty message with the given version and message type.
    pub fn new(version: &str, message_type: &str) -> (r: Self)
        ensures
            r@.version == version.spec_bytes(),
            r@.message_type == message_type.spec_bytes(),
            r@.fields == Seq::<FieldView>::empty(),
    {
        let r = FixMessageBuilder {
            fix_version: copy_bytes(version.as_bytes()),
            message_type: copy_bytes(message_type.as_bytes()),
            data: Vec::new(),
        };
        assert(fields_view(r.data@) =~= Seq::<FieldView>::empty());
        r
    }

    /// Appends the field `key=value` after the fields already there.
    pub fn with_value(&mut self, key: i32, value: &str)
        ensures
            final(self)@.version == old(self)@.version,
            final(self)@.message_type == old(self)@.message_type,
            final(self)@.fields == old(self)@.fields.push((signed_decimal(key as int), value.spec_bytes())),
    {
        let k = signed_decimal_digits(key);
        let v = copy_bytes(value.as_bytes());
        self.with_value_as_bytes(k, v);
    }

    fn with_value_as_bytes(&mut self, key: Vec<u8>, value: Vec<u8>)
        ensures
            final(self)@.version == old(self)@.version,
            final(self)@.message_type == old(self)@.message_type,
            final(self)@.fields == old(self)@.fields.push((key@, value@)),
    {
        let ghost before = self.data@;
        self.data.push((key, value));
        assert(fields_view(self.data@) =~= fields_view(before).push((key@, value@)));
    }

    fn compile_body(&self) -> (r: (usize, Vec<u8>))
        ensures
            r.1@ == body_bytes(self@),
            r.0 == r.1@.len(),
    {
        let type_tag = decimal_digits(FIX_MESSAGE_TYPE as u64);
        let mut body = compile_fix_chunk(type_tag.as_slice(), self.message_type.as_slice());
        let ghost head = body@;
        let mut i: usize = 0;
        while i < self.data.len()
            invariant
                i <= self.data@.len(),
                head == chunk(tag_bytes(FIX_MESSAGE_TYPE), self@.message_type),
                body@ == head + chunks(self@.fields.subrange(0, i as int)),
            decreases self.data@.len() - i,
        {
            let piece = compile_fix_chunk(self.data[i].0.as_slice(), self.data[i].1.as_slice());
            body.extend_from_slice(piece.as_slice());
            proof {
                let f = self@.fields;
                assert(f.subrange(0, i as int + 1).drop_last() =~= f.subrange(0, i as int));
                assert(f[i as int] == (self.data@[i as int].0@, self.data@[i as int].1@));
            }
            i += 1;
        }
        assert(self@.fields.subrange(0, i as int) =~= self@.fields);
        (body.len(), body)
    }

    fn compile_checked(&self) -> (r: Vec<u8>)
        ensures
            r@ == checked_bytes(self@),
    {
        let version_tag = decimal_digits(FIX_VERSION as u64);
        let mut result = compile_fix_chunk(version_tag.as_slice(), self.fix_version.as_slice());
        let (body_len, body) = self.compile_body();
        let len_tag = decimal_digits(FIX_BODY_LEN as u64);
        let len_digits = decimal_digits(body_len as u64);
        let len_chunk = compile_fix_chunk(len_tag.as_slice(), len_digits.as_slice());
        result.extend_from_slice(len_chunk.as_slice());
        result.extend_from_slice(body.as_slice());
        result
    }

    fn compile_message(&self) -> (r: Vec<u8>)
        ensures
            r@ == encoding(self@),
    {
        let mut result = self.compile_checked();
        let sum = check_sum_bytes(result.as_slice());
        let sum_tag = decimal_digits(FIX_CHECK_SUM as u64);
        let sum_chunk = compile_fix_chunk(sum_tag.as_slice(), sum.as_slice());
        result.extend_from_slice(sum_chunk.as_slice());
        result
    }

    fn calculate_check_sum(&self) -> (r: Vec<u8>)
        ensures
            r@ == check_sum_digits(checked_bytes(self@)),
    {
        let checked = self.compile_checked();
        check_sum_bytes(checked.as_slice())
    }

    /// The wire form of the message: version, body length, message type, the body fields
    /// in order, and the checksum.
    pub fn as_bytes(&self) -> (r: Vec<u8>)
        ensures
            r@ == encoding(self@),
    {
        self.compile_message()
    }

    /// The display form of the message (each terminator shown as `|`), as text.
    /// Fails with `InvalidEncoding` when that form is not valid UTF-8.
    pub fn to_string(&self) -> (r: Result<String, FixSerializeError>)
        ensures
            match r {
                Ok(s) => valid_utf8(display_bytes(encoding(self@))) && s@ == decode_utf8(
                    display_bytes(encoding(self@)),
                ),
                Err(e) => !valid_utf8(display_bytes(encoding(self@))) && e
                    == FixSerializeError::InvalidEncoding,
            },
    {
        let bytes = self.compile_message();
        bytes_to_fix_string(bytes.as_slice())
    }

    /// The message type.
    pub fn get_message_type(&self) -> (r: &Vec<u8>)
        ensures
            r@ == self@.message_type,
    {
        &self.message_type
    }

    /// The first value of the body fields with tag `key`.
    pub fn get_value(&self, key: Vec<u8>) -> (r: Option<&Vec<u8>>)
        ensures
            match r {
                Some(v) => field_values(self@.fields, key@).len() > 0 && v@ == field_values(
                    self@.fields,
                    key@,
                )[0],
                None => field_values(self@.fields, key@).len() == 0,
            },
    {
        let ghost f = self@.fields;
        let mut i: usize = 0;
        while i < self.data.len()
            invariant
                i <= self.data@.len(),
                f == self@.fields,
                field_values(f.subrange(0, i as int), key@).len() == 0,
            decreases self.data@.len() - i,
        {
            assert(f.subrange(0, i as int + 1).drop_last() =~= f.subrange(0, i as int));
            assert(f[i as int] == (self.data@[i as int].0@, self.data@[i as int].1@));
            if bytes_equal(self.data[i].0.as_slice(), key.as_slice()) {
                proof {
                    let head = f.subrange(0, i as int + 1);
                    let tail = f.subrange(i as int + 1, f.len() as int);
                    assert(f =~= head + tail);
                    lemma_field_values_add(head, tail, key@);
                }
                return Some(&self.data[i].1);
            }
            i += 1;
        }
        assert(f.subrange(0, i as int) =~= f);
        None
    }

    /// All values of the body fields with tag `key`, in order.
    pub fn get_values(&self, key: Vec<u8>) -> (r: Vec<&Vec<u8>>)
        ensures
            r@.map_values(|v: &Vec<u8>| v@) == field_values(self@.fields, key@),
    {
        let ghost f = self@.fields;
        let mut result: Vec<&Vec<u8>> = Vec::new();
        let mut i: usize = 0;
        while i < self.data.len()
            invariant
                i <= self.data@.len(),
                f == self@.fields,
                result@.map_values(|v: &Vec<u8>| v@) == field_values(f.subrange(0, i as int), key@),
            decreases self.data@.len() - i,
        {
            assert(f.subrange(0, i as int + 1).drop_last() =~= f.subrange(0, i as int));
            assert(f[i as int] == (self.data@[i as int].0@, self.data@[i as int].1@));
            let ghost before = result@;
            if bytes_equal(self.data[i].0.as_slice(), key.as_slice()) {
                result.push(&self.data[i].1);
                assert(result@.map_values(|v: &Vec<u8>| v@) =~= before.map_values(|v: &Vec<u8>| v@).push(self.data@[i as int].1@));
            }
            i += 1;
        }
        assert(f.subrange(0, i as int) =~= f);
        result
    }

    /// The first value with tag `key`, as text; `InvalidEncoding` when it is not UTF-8.
    pub fn get_value_as_string(&self, key: Vec<u8>) -> (r: Result<Option<String>, FixSerializeError>)
        ensures
            ({
                let vs = field_values(self@.fields, key@);
                match r {
                    Ok(None) => vs.len() == 0,
                    Ok(Some(s)) => vs.len() > 0 && value_text(vs[0]) == Some(s@),
                    Err(e) => vs.len() > 0 && value_text(vs[0]) is None && e
                        == FixSerializeError::InvalidEncoding,
                }
            }),
    {
        match self.get_value(key) {
            None => Ok(None),
            Some(v) => match text_from_bytes(copy_bytes(v.as_slice())) {
                Some(s) => Ok(Some(s)),
                None => Err(FixSerializeError::InvalidEncoding),
            },
        }
    }

    /// All values with tag `key`, in order, as text; `InvalidEncoding` when one of them is
    /// not UTF-8.
    pub fn get_values_as_string(&self, key: Vec<u8>) -> (r: Result<Vec<String>, FixSerializeError>)
        ensures
            ({
                let vs = field_values(self@.fields, key@);
                match r {
                    Ok(ss) => ss@.len() == vs.len() && forall|i: int|
                        0 <= i < vs.len() ==> value_text(#[trigger] vs[i]) == Some(ss@[i]@),
                    Err(e) => e == FixSerializeError::InvalidEncoding && exists|i: int|
                        0 <= i < vs.len() && value_text(#[trigger] vs[i]) is None,
                }
            }),
    {
        let ghost vs = field_values(self@.fields, key@);
        let values = self.get_values(copy_bytes(key.as_slice()));
        let mut result: Vec<String> = Vec::new();
        let mut i: usize = 0;
        while i < values.len()
            invariant
                i <= values@.len(),
                values@.map_values(|v: &Vec<u8>| v@) == vs,
                vs == field_values(self@.fields, key@),
                result@.len() == i,
                forall|k: int| 0 <= k < i ==> value_text(#[trigger] vs[k]) == Some(result@[k]@),
            decreases values@.len() - i,
        {
            assert(vs[i as int] == values@[i as int]@);
            match text_from_bytes(copy_bytes(values[i].as_slice())) {
                Some(s) => result.push(s),
                None => {
                    assert(values@.map_values(|v: &Vec<u8>| v@).len() == values@.len());
                    assert(0 <= i < vs.len() && value_text(vs[i as int]) is None);

                    return Err(FixSerializeError::InvalidEncoding);
                },
            }
            i += 1;
        }
        Ok(result)
    }

    /// `get_value_as_string` with the tag given as text.
    pub fn get_value_string(&self, key: &str) -> (r: Result<Option<String>, FixSerializeError>)
        ensures
            ({
                let vs = field_values(self@.fields, key.spec_bytes());
                match r {
                    Ok(None) => vs.len() == 0,
                    Ok(Some(s)) => vs.len() > 0 && value_text(vs[0]) == Some(s@),
                    Err(e) => vs.len() > 0 && value_text(vs[0]) is None && e
                        == FixSerializeError::InvalidEncoding,
                }
            }),
    {
        self.get_value_as_string(copy_bytes(key.as_bytes()))
    }

    /// `get_values_as_string` with the tag given as text.
    pub fn get_values_string(&self, key: &str) -> (r: Result<Vec<String>, FixSerializeError>)
        ensures
            ({
                let vs = field_values(self@.fields, key.spec_bytes());
                match r {
                    Ok(ss) => ss@.len() == vs.len() && forall|i: int|
                        0 <= i < vs.len() ==> value_text(#[trigger] vs[i]) == Some(ss@[i]@),
                    Err(e) => e == FixSerializeError::InvalidEncoding && exists|i: int|
                        0 <= i < vs.len() && value_text(#[trigger] vs[i]) is None,
                }
            }),
    {
        self.get_values_as_string(copy_bytes(key.as_bytes()))
    }
}

} // verus!
