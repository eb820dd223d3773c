//! The user-mode loader's argument block: `new_process` stores the binary path and
//! the arguments as NUL-terminated strings in a fixed data area, and the new
//! process reads them back from there.
use vstd::prelude::*;

verus! {

/// Why a string could not be stored in the argument area.
pub enum NullStringBuilderError {
    /// The string holds a NUL byte, which would split it.
    ContainsNull,
    /// The string does not fit in the space that is left.
    InsufficientSpace,
}

/// The loader interface's error, as far as spawning produces one here: the
/// arguments could not be passed.
#[derive(PartialEq, Eq, Structural, Debug)]
pub enum LoaderError {
    BadArguments,
}

impl core::convert::From<NullStringBuilderError> for LoaderError {
    fn from(_v: NullStringBuilderError) -> (r: LoaderError) {
        LoaderError::BadArguments
    }
}

impl vstd::std_specs::convert::FromSpecImpl<NullStringBuilderError> for LoaderError {
    open spec fn obeys_from_spec() -> bool {
        true
    }

    open spec fn from_spec(v: NullStringBuilderError) -> LoaderError {
        LoaderError::BadArguments
    }
}

/// Whether `s` holds a NUL byte.
pub open spec fn has_nul(s: Seq<u8>) -> bool {
    exists|k: int| 0 <= k < s.len() && s[k] == 0
}

/// What storing `s` writes when `room` bytes are left: the string, and a NUL
/// terminator if there is space for it.
pub open spec fn entry(s: Seq<u8>, room: nat) -> Seq<u8> {
    if s.len() < room {
        s.push(0)
    } else {
        s
    }
}

/// Whether `s` can be stored with `room` bytes left.
pub open spec fn storable(s: Seq<u8>, room: nat) -> bool {
    !has_nul(s) && s.len() <= room
}

/// The bytes written when the strings `strs` are stored one after the other into
/// `room` bytes, up to the first that cannot be stored.
pub open spec fn packed(strs: Seq<Seq<u8>>, room: nat) -> Seq<u8>
    decreases strs.len(),
{
    if strs.len() == 0 {
        Seq::empty()
    } else if !storable(strs[0], room) {
        Seq::empty()
    } else {
        let e = entry(strs[0], room);
        e + packed(strs.drop_first(), (room - e.len()) as nat)
    }
}

/// Whether all of `strs` can be stored one after the other into `room` bytes.
pub open spec fn all_storable(strs: Seq<Seq<u8>>, room: nat) -> bool
    decreases strs.len(),
{
    if strs.len() == 0 {
        true
    } else {
        let e = entry(strs[0], room);
        storable(strs[0], room) && all_storable(strs.drop_first(), (room - e.len()) as nat)
    }
}

/// Whether all of `strs` can be stored into `room` bytes with each of them started
/// while some space is still left (an empty string stored into a full area leaves
/// no trace that could be read back).
pub open spec fn all_readable(strs: Seq<Seq<u8>>, room: nat) -> bool
    decreases strs.len(),
{
    if strs.len() == 0 {
        true
    } else {
        let e = entry(strs[0], room);
        room > 0 && storable(strs[0], room) && all_readable(strs.drop_first(), (room - e.len()) as nat)
    }
}

/// `p` is the position of the first NUL byte of `s`, or its length if it has none.
pub open spec fn is_first_nul(s: Seq<u8>, p: int) -> bool {
    &&& 0 <= p <= s.len()
    &&& forall|k: int| 0 <= k < p ==> s[k] != 0
    &&& p < s.len() ==> s[p] == 0
}

/// Position of the first NUL byte of `s`, or its length if it has none.
pub open spec fn nul_pos(s: Seq<u8>) -> int {
    choose|p: int| is_first_nul(s, p)
}

/// The strings that `data` holds, read as NUL-separated strings up to its end. A
/// final string need not be terminated.
pub open spec fn strings_in(data: Seq<u8>) -> Seq<Seq<u8>>
    decreases data.len(),
{
    if data.len() == 0 {
        Seq::empty()
    } else {
        let p = nul_pos(data);
        if 0 <= p < data.len() {
            seq![data.subrange(0, p)] + strings_in(data.subrange(p + 1, data.len() as int))
        } else {
            seq![data]
        }
    }
}

proof fn lemma_first_nul_unique(s: Seq<u8>, p: int, q: int)
    requires
        is_first_nul(s, p),
        is_first_nul(s, q),
    ensures
        p == q,
{
    if p < q {
        assert(s[p] == 0);
    } else if q < p {
        assert(s[q] == 0);
    }
}

/// Once a first-NUL position is known, `nul_pos` is that position.
proof fn lemma_nul_pos(s: Seq<u8>, p: int)
    requires
        is_first_nul(s, p),
    ensures
        nul_pos(s) == p,
{
    lemma_first_nul_unique(s, p, nul_pos(s));
}

/// Stores NUL-terminated strings into an area of bytes, front to back.
pub struct NullStringBuilder {
    buf: Vec<u8>,
    pos: usize,
}

impl NullStringBuilder {
    /// The whole area, written part first.
    pub closed spec fn buffer(&self) -> Seq<u8> {
        self.buf@
    }

    /// How many bytes of the area have been written.
    pub closed spec fn used(&self) -> nat {
        self.pos as nat
    }

    /// How many bytes of the area are left.
    pub open spec fn room(&self) -> nat {
        (self.buffer().len() - self.used()) as nat
    }

    /// What has been written lies within the area.
    pub open spec fn wf(&self) -> bool {
        self.used() <= self.buffer().len()
    }

    /// A builder that stores into `buf` from its start.
    pub fn new(buf: Vec<u8>) -> (b: NullStringBuilder)
        ensures
            b.wf(),
            b.buffer() == buf@,
            b.used() == 0,
    {
        NullStringBuilder { buf, pos: 0 }
    }

    /// The area, with what has been stored.
    pub fn into_buffer(self) -> (buf: Vec<u8>)
        ensures
            buf@ == self.buffer(),
    {
        self.buf
    }

    /// Stores `bytes` followed by a NUL terminator, leaving the terminator out when
    /// the string exactly fills the space left. A string holding a NUL, or longer
    /// than the space left, is refused and nothing is written.
    pub fn push(&mut self, bytes: &[u8]) -> (r: Result<(), NullStringBuilderError>)
        requires
            old(self).wf(),
        ensures
            final(self).wf(),
            has_nul(bytes@) ==> r == Err::<(), _>(NullStringBuilderError::ContainsNull),
            !has_nul(bytes@) && bytes@.len() > old(self).room() ==> r == Err::<(), _>(
                NullStringBuilderError::InsufficientSpace,
            ),
            storable(bytes@, old(self).room()) <==> r is Ok,
            r is Err ==> *final(self) == *old(self),
            r is Ok ==> ({
                let e = entry(bytes@, old(self).room());
                &&& final(self).used() == old(self).used() + e.len()
                &&& final(self).buffer() == old(self).buffer().subrange(0, old(self).used() as int)
                    + e + old(self).buffer().subrange(
                    (old(self).used() + e.len()) as int,
                    old(self).buffer().len() as int,
                )
            }),
    {
        let mut k: usize = 0;
        while k < bytes.len()
            invariant
                k <= bytes@.len(),
                forall|j: int| 0 <= j < k ==> bytes@[j] != 0,
                *self == *old(self),
                old(self).wf(),
            decreases bytes@.len() - k,
        {
            if bytes[k] == 0 {
                return Err(NullStringBuilderError::ContainsNull);
            }
            k += 1;
        }
        let room = self.buf.len() - self.pos;
        if bytes.len() > room {
            return Err(NullStringBuilderError::InsufficientSpace);
        }
        let ghost old_buf = self.buf@;
        let ghost pos0 = self.pos;
        let mut i: usize = 0;
        while i < bytes.len()
            invariant
                self.pos == pos0,
                pos0 + bytes@.len() <= old_buf.len(),
                old_buf.len() <= usize::MAX,
                i <= bytes@.len(),
                self.buf@.len() == old_buf.len(),
                forall|j: int| 0 <= j < pos0 ==> self.buf@[j] == old_buf[j],
                forall|j: int| 0 <= j < i ==> self.buf@[pos0 + j] == bytes@[j],
                forall|j: int| pos0 + i <= j < old_buf.len() ==> self.buf@[j] == old_buf[j],
            decreases bytes@.len() - i,
        {
            self.buf.set(self.pos + i, bytes[i]);
            i += 1;
        }
        if bytes.len() == room {
            self.pos = self.pos + bytes.len();
        } else {
            self.buf.set(self.pos + bytes.len(), 0);
            self.pos = self.pos + bytes.len() + 1;
        }
        proof {
            let e = entry(bytes@, (old_buf.len() - pos0) as nat);
            assert(self.buf@ =~= old_buf.subrange(0, pos0 as int) + e + old_buf.subrange(
                pos0 + e.len(),
                old_buf.len() as int,
            ));
        }
        Ok(())
    }
}

/// Reads NUL-separated strings from an area of bytes, front to back.
pub struct NullStringList<'a> {
    rest: &'a [u8],
}

impl<'a> NullStringList<'a> {
    /// The bytes not read yet.
    pub closed spec fn remaining(&self) -> Seq<u8> {
        self.rest@
    }

    /// A reader over `data`.
    pub fn new(data: &'a [u8]) -> (l: NullStringList<'a>)
        ensures
            l.remaining() == data@,
    {
        NullStringList { rest: data }
    }

    /// The next string: the bytes up to the next NUL (which is skipped), or all
    /// remaining bytes if there is no NUL; `None` once nothing remains.
    pub fn next(&mut self) -> (r: Option<&'a [u8]>)
        ensures
            old(self).remaining().len() == 0 <==> r is None,
            r is None ==> final(self).remaining() == old(self).remaining(),
            r is Some ==> strings_in(old(self).remaining()) == seq![r.unwrap()@] + strings_in(
                final(self).remaining(),
            ),
            r is Some ==> final(self).remaining().len() < old(self).remaining().len(),
            r is Some ==> ({
                let d = old(self).remaining();
                let p = nul_pos(d);
                &&& r.unwrap()@ == d.subrange(0, p)
                &&& final(self).remaining() == (if p < d.len() {
                    d.subrange(p + 1, d.len() as int)
                } else {
                    Seq::<u8>::empty()
                })
            }),
    {
        if self.rest.len() == 0 {
            None
        } else {
            let ghost data = self.rest@;
            let mut p: usize = 0;
            while p < self.rest.len() && self.rest[p] != 0
                invariant
                    p <= data.len(),
                    self.rest@ == data,
                    forall|k: int| 0 <= k < p ==> data[k] != 0,
                decreases data.len() - p,
            {
                p += 1;
            }
            proof {
                lemma_nul_pos(data, p as int);
            }
            if p < self.rest.len() {
                let (ret, tail) = self.rest.split_at(p);
                let (_nul, rest) = tail.split_at(1);
                self.rest = rest;
                proof {
                    assert(rest@ == data.subrange(p + 1, data.len() as int));
                }
                Some(ret)
            } else {
                let (ret, rest) = self.rest.split_at(p);
                self.rest = rest;
                proof {
                    assert(ret@ == data);
                    assert(strings_in(rest@) == Seq::<Seq<u8>>::empty());
                }
                Some(ret)
            }
        }
    }
}

/// The data area that carries the arguments into a new process (the loader's
/// `init_path` .. `init_path_end` region), and the number of strings stored in it.
pub struct ArgumentArea {
    pub buffer: Vec<u8>,
    pub arg_count: u32,
}

/// The strings `new_process` stores: the binary's path, then the arguments.
pub open spec fn process_strings(binary: Seq<u8>, args: Seq<&[u8]>) -> Seq<Seq<u8>> {
    seq![binary] + args.map_values(|a: &[u8]| a@)
}

/// The area after `strs` have been stored into `buf` from its start: what was
/// stored, then the bytes of `buf` that were not written.
pub open spec fn stored_area(strs: Seq<Seq<u8>>, buf: Seq<u8>) -> Seq<u8> {
    let w = packed(strs, buf.len());
    w + buf.subrange(w.len() as int, buf.len() as int)
}

/// What a new process reads from its area: the binary's path (the first string),
/// and the strings it hands to the entry point, which are read anew from the
/// start of the area: its first `count - 1` strings (or all, if fewer), the
/// binary's path among them.
pub open spec fn read_arguments(buf: Seq<u8>, count: nat) -> (Seq<u8>, Seq<Seq<u8>>) {
    let items = strings_in(buf);
    let n = if items.len() < count - 1 { items.len() as int } else { count - 1 };
    (items[0], items.take(n))
}

proof fn lemma_packed_len(strs: Seq<Seq<u8>>, room: nat)
    ensures
        packed(strs, room).len() <= room,
    decreases strs.len(),
{
    if strs.len() > 0 && storable(strs[0], room) {
        let e = entry(strs[0], room);
        lemma_packed_len(strs.drop_first(), (room - e.len()) as nat);
    }
}

/// Storing `a + b` stores `a`, then (if all of `a` could be stored) `b` into what is
/// left.
proof fn lemma_packed_append(a: Seq<Seq<u8>>, b: Seq<Seq<u8>>, room: nat)
    ensures
        packed(a + b, room) == (if all_storable(a, room) {
            packed(a, room) + packed(b, (room - packed(a, room).len()) as nat)
        } else {
            packed(a, room)
        }),
        all_storable(a + b, room) == (all_storable(a, room) && all_storable(
            b,
            (room - packed(a, room).len()) as nat,
        )),
    decreases a.len(),
{
    lemma_packed_len(a, room);
    if a.len() == 0 {
        assert(a + b == b);
    } else {
        assert((a + b).drop_first() == a.drop_first() + b);
        assert((a + b)[0] == a[0]);
        let e = entry(a[0], room);
        if storable(a[0], room) {
            lemma_packed_append(a.drop_first(), b, (room - e.len()) as nat);
            lemma_packed_len(a.drop_first(), (room - e.len()) as nat);
        }
    }
}

/// Storing one more string.
proof fn lemma_packed_push(a: Seq<Seq<u8>>, s: Seq<u8>, room: nat)
    requires
        all_storable(a, room),
    ensures
        ({
            let rest = (room - packed(a, room).len()) as nat;
            &&& storable(s, rest) ==> packed(a.push(s), room) == packed(a, room) + entry(s, rest)
            &&& !storable(s, rest) ==> packed(a.push(s), room) == packed(a, room)
            &&& all_storable(a.push(s), room) == storable(s, rest)
        }),
{
    let rest = (room - packed(a, room).len()) as nat;
    lemma_packed_append(a, seq![s], room);
    assert(a + seq![s] == a.push(s));
    let one = seq![s];
    assert(one.drop_first() == Seq::<Seq<u8>>::empty());
    assert(one[0] == s);
    let rest2 = (rest - entry(s, rest).len()) as nat;
    assert(packed(one.drop_first(), rest2) == Seq::<u8>::empty());
    assert(all_storable(one.drop_first(), rest2));
    if storable(s, rest) {
        assert(packed(one, rest) == entry(s, rest) + packed(one.drop_first(), rest2));
        assert(packed(one, rest) == entry(s, rest));
        assert(all_storable(one, rest));
    } else {
        assert(packed(one, rest) == Seq::<u8>::empty());
        assert(!all_storable(one, rest));
        assert(packed(a, room) + Seq::<u8>::empty() == packed(a, room));
    }
}

/// Stores the binary's path and the arguments into the area as NUL-terminated
/// strings and records how many there are, so that the new process can read them
/// back; the process itself is then started by the caller. Fails with
/// `BadArguments` when a string holds a NUL or does not fit; the strings before it
/// stay stored.
pub fn new_process(area: &mut ArgumentArea, binary: &[u8], args: &[&[u8]]) -> (r: Result<
    (),
    LoaderError,
>)
    requires
        args@.len() < u32::MAX,
    ensures
        final(area).arg_count == args@.len() + 1,
        final(area).buffer@ == stored_area(process_strings(binary@, args@), old(area).buffer@),
        r is Ok <==> all_storable(process_strings(binary@, args@), old(area).buffer@.len()),
        r is Err ==> r == Err::<(), LoaderError>(LoaderError::BadArguments),
{
    let ghost strs = process_strings(binary@, args@);
    let ghost old_buf = area.buffer@;
    let ghost len = old_buf.len();
    area.arg_count = (args.len() + 1) as u32;
    let mut taken: Vec<u8> = Vec::new();
    std::mem::swap(&mut taken, &mut area.buffer);
    let mut builder = NullStringBuilder::new(taken);
    proof {
        lemma_packed_push(Seq::empty(), binary@, len);
        assert(Seq::<Seq<u8>>::empty().push(binary@) == strs.take(1));
        assert(packed(Seq::<Seq<u8>>::empty(), len) == Seq::<u8>::empty());
    }
    match builder.push(binary) {
        Ok(()) => {},
        Err(e) => {
            area.buffer = builder.into_buffer();
            proof {
                lemma_packed_append(strs.take(1), strs.skip(1), len);
                assert(strs.take(1) + strs.skip(1) == strs);
                assert(!storable(binary@, len));
                assert(!all_storable(strs.take(1), len));
                assert(packed(strs.take(1), len) == Seq::<u8>::empty());
                assert(packed(strs, len) == Seq::<u8>::empty());
                assert(area.buffer@ == old_buf);
                assert(area.buffer@ =~= stored_area(strs, old_buf));
            }
            return Err(LoaderError::from(e));
        },
    }
    let mut i: usize = 0;
    while i < args.len()
        invariant
            i <= args@.len(),
            strs == process_strings(binary@, args@),
            old_buf == old(area).buffer@,
            len == old_buf.len(),
            builder.wf(),
            builder.buffer().len() == len,
            all_storable(strs.take(i + 1), len),
            builder.used() == packed(strs.take(i + 1), len).len(),
            builder.buffer() == packed(strs.take(i + 1), len) + old_buf.subrange(
                builder.used() as int,
                len as int,
            ),
            area.arg_count == args@.len() + 1,
        decreases args@.len() - i,
    {
        let ghost pre = strs.take(i + 1);
        proof {
            lemma_packed_push(pre, args@[i as int]@, len);
            assert(pre.push(args@[i as int]@) == strs.take(i + 2));
            lemma_packed_len(pre, len);
        }
        match builder.push(args[i]) {
            Ok(()) => {
                proof {
                    assert(builder.buffer() =~= packed(strs.take(i + 2), len) + old_buf.subrange(
                        builder.used() as int,
                        len as int,
                    ));
                }
            },
            Err(e) => {
                area.buffer = builder.into_buffer();
                proof {
                    lemma_packed_append(strs.take(i + 2), strs.skip(i + 2), len);
                    assert(strs.take(i + 2) + strs.skip(i + 2) == strs);
                    assert(!storable(args@[i as int]@, (len - packed(pre, len).len()) as nat));
                    assert(!all_storable(strs.take(i + 2), len));
                    assert(packed(strs.take(i + 2), len) == packed(pre, len));
                    assert(packed(strs, len) == packed(pre, len));
                    assert(area.buffer@ =~= stored_area(strs, old_buf));
                }
                return Err(LoaderError::from(e));
            },
        }
        i += 1;
    }
    area.buffer = builder.into_buffer();
    proof {
        assert(strs.take(args@.len() + 1int) == strs);
        lemma_packed_len(strs, len);
        assert(area.buffer@ =~= stored_area(strs, old_buf));
    }
    Ok(())
}

/// What a new process reads from its argument area: the binary's path (the first
/// string), and the strings for the entry point, read again from the start of the
/// area: up to `arg_count - 1` of them, the binary's path first.
pub fn process_arguments(area: &ArgumentArea) -> (r: (&[u8], Vec<&[u8]>))
    requires
        area.arg_count > 0,
        area.buffer@.len() > 0,
    ensures
        r.0@ == read_arguments(area.buffer@, area.arg_count as nat).0,
        r.1@.map_values(|a: &[u8]| a@) == read_arguments(area.buffer@, area.arg_count as nat).1,
{
    let ghost items = strings_in(area.buffer@);
    let mut first = NullStringList::new(area.buffer.as_slice());
    let binary = match first.next() {
        Some(b) => b,
        None => {
            proof {
                assert(false);
            }
            area.buffer.as_slice()
        },
    };
    proof {
        assert(items[0] == binary@);
    }
    let mut list = NullStringList::new(area.buffer.as_slice());
    let mut args: Vec<&[u8]> = Vec::new();
    let mut i: u32 = 0;
    let mut more = true;
    proof {
        assert(args@.map_values(|a: &[u8]| a@) + strings_in(list.remaining()) =~= items);
    }
    while more && i < area.arg_count - 1
        invariant
            i <= area.arg_count - 1,
            area.arg_count > 0,
            args@.len() == i,
            items == strings_in(area.buffer@),
            items == args@.map_values(|a: &[u8]| a@) + strings_in(list.remaining()),
            !more ==> list.remaining().len() == 0,
        decreases area.arg_count - 1 - i, (if more { 1int } else { 0int }),
    {
        let ghost before = args@.map_values(|a: &[u8]| a@);
        match list.next() {
            Some(a) => {
                args.push(a);
                proof {
                    assert(args@.map_values(|a: &[u8]| a@) == before.push(a@));
                }
                i += 1;
            },
            None => {
                more = false;
            },
        }
    }
    proof {
        let n = if items.len() < area.arg_count - 1 { items.len() as int } else { area.arg_count - 1 };
        if list.remaining().len() == 0 {
            assert(strings_in(list.remaining()) == Seq::<Seq<u8>>::empty());
        }
        assert(items.take(n) =~= args@.map_values(|a: &[u8]| a@));
    }
    (binary, args)
}

/// Reading back what was stored: the strings stored one after the other into an
/// area are the first strings read from it, whatever follows them there, as long
/// as each was started while space was left.
pub proof fn lemma_stored_strings_read_back(strs: Seq<Seq<u8>>, buf: Seq<u8>)
    requires
        all_readable(strs, buf.len()),
    ensures
        strings_in(stored_area(strs, buf)).len() >= strs.len(),
        strings_in(stored_area(strs, buf)).subrange(0, strs.len() as int) == strs,
    decreases strs.len(),
{
    let len = buf.len();
    let x = stored_area(strs, buf);
    if strs.len() == 0 {
        assert(strs.subrange(0, 0) == strs);
        assert(strings_in(x).subrange(0, 0) == Seq::<Seq<u8>>::empty());
    } else {
        let s = strs[0];
        let e = entry(s, len);
        let rest = strs.drop_first();
        let len2 = (len - e.len()) as nat;
        let buf2 = buf.subrange(e.len() as int, len as int);
        let p2 = packed(rest, len2).len();
        lemma_packed_len(rest, len2);
        assert(buf2.subrange(p2 as int, len2 as int) == buf.subrange((e.len() + p2) as int, len as int));
        assert(x == e + stored_area(rest, buf2));
        if s.len() < len {
            assert(is_first_nul(x, s.len() as int)) by {
                assert forall|k: int| 0 <= k < s.len() implies x[k] != 0 by {
                    assert(x[k] == s[k]);
                    if s[k] == 0 {
                        assert(has_nul(s));
                    }
                }
                assert(x[s.len() as int] == 0);
            }
            lemma_nul_pos(x, s.len() as int);
            assert(x.subrange(0, s.len() as int) == s);
            assert(x.subrange(s.len() + 1int, x.len() as int) == stored_area(rest, buf2));
            lemma_stored_strings_read_back(rest, buf2);
            let tail = strings_in(stored_area(rest, buf2));
            assert(strings_in(x) == seq![s] + tail);
            assert(strings_in(x).subrange(0, strs.len() as int) =~= strs) by {
                assert forall|k: int| 0 <= k < strs.len() implies strings_in(x).subrange(
                    0,
                    strs.len() as int,
                )[k] == strs[k] by {
                    if k > 0 {
                        assert(tail.subrange(0, rest.len() as int)[k - 1] == rest[k - 1]);
                    }
                }
            }
        } else {
            assert(e == s);
            assert(len2 == 0);
            assert(all_readable(rest, len2));
            assert(rest.len() == 0);
            assert(x == s) by {
                assert(packed(rest, len2) == Seq::<u8>::empty());
                assert(buf.subrange(len as int, len as int) == Seq::<u8>::empty());
            }
            assert(is_first_nul(x, s.len() as int)) by {
                assert forall|k: int| 0 <= k < s.len() implies x[k] != 0 by {
                    if s[k] == 0 {
                        assert(has_nul(s));
                    }
                }
            }
            lemma_nul_pos(x, s.len() as int);
            assert(strings_in(x) == seq![x]);
            assert(strings_in(x).subrange(0, strs.len() as int) =~= strs);
        }
    }
}

/// What `new_process` stores, a new process reads back: the same binary path, and
/// for its entry point as many strings as there are arguments, read from the
/// start: the binary path, then all arguments but the last. This holds as long as
/// each string was started while space was left.
pub proof fn lemma_new_process_round_trip(binary: Seq<u8>, args: Seq<&[u8]>, buf: Seq<u8>)
    requires
        all_readable(process_strings(binary, args), buf.len()),
        args.len() < u32::MAX,
    ensures
        read_arguments(stored_area(process_strings(binary, args), buf), args.len() + 1) == (
            binary,
            process_strings(binary, args).take(args.len() as int),
        ),
{
    let strs = process_strings(binary, args);
    lemma_stored_strings_read_back(strs, buf);
    let items = strings_in(stored_area(strs, buf));
    assert(items[0] == strs.subrange(0, strs.len() as int)[0]);
    assert(items.take(args.len() as int) =~= strs.take(args.len() as int)) by {
        assert forall|k: int| 0 <= k < args.len() implies #[trigger] items.take(args.len() as int)[k]
            == strs.take(args.len() as int)[k] by {
            assert(items[k] == strs.subrange(0, strs.len() as int)[k]);
        }
    }
}

} // verus!
