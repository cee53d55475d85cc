//! Moving a block of YAML lines to another indentation.
use vstd::prelude::*;
use vstd::utf8::encode_utf8;

verus! {

/// The index of the first `\n`.
pub open spec fn first_newline(b: Seq<u8>) -> Option<int>
    decreases b.len(),
{
    if b.len() == 0 {
        None
    } else if b[0] == 10 {
        Some(0)
    } else {
        match first_newline(b.drop_first()) {
            Some(i) => Some(i + 1),
            None => None,
        }
    }
}

pub proof fn lemma_first_newline(b: Seq<u8>)
    ensures
        first_newline(b) matches Some(i) ==> 0 <= i < b.len() && b[i] == 10 && forall|j: int| 0 <= j < i ==> b[j] != 10,
        first_newline(b) is None ==> forall|j: int| 0 <= j < b.len() ==> b[j] != 10,
    decreases b.len(),
{
    if b.len() > 0 && b[0] != 10 {
        lemma_first_newline(b.drop_first());
        assert forall|j: int| 1 <= j < b.len() implies b[j] == b.drop_first()[j - 1] by {}
    }
}

/// The length of the first line, with its `\n` if it has one.
pub open spec fn line_len(b: Seq<u8>) -> int {
    match first_newline(b) {
        Some(i) => i + 1,
        None => b.len() as int,
    }
}

/// A line without its trailing `\r` and `\n` characters.
pub open spec fn trim_newlines(l: Seq<u8>) -> Seq<u8>
    decreases l.len(),
{
    if l.len() > 0 && (l.last() == 13 || l.last() == 10) {
        trim_newlines(l.drop_last())
    } else {
        l
    }
}

/// The number of leading spaces.
pub open spec fn leading_spaces(c: Seq<u8>) -> nat
    decreases c.len(),
{
    if c.len() > 0 && c[0] == 32 {
        1 + leading_spaces(c.drop_first())
    } else {
        0
    }
}

pub open spec fn spaces(n: nat) -> Seq<u8> {
    Seq::new(n, |_i: int| 32u8)
}

/// One line moved from indentation `old` to `new`: its spaces beyond `old`
/// are kept, and its line break becomes `nl`. A first line indented less
/// than `old` (an entry that follows `- `) is kept as it is.
pub open spec fn reindent_line(line: Seq<u8>, first: bool, old: nat, new: nat, nl: Seq<u8>) -> Seq<u8> {
    let content = trim_newlines(line);
    let sp = leading_spaces(content);
    let body = if first && sp < old {
        content
    } else {
        spaces(new + (if sp > old { (sp - old) as nat } else { 0nat })) + content.skip(sp as int)
    };
    body + if line.len() > 0 && line.last() == 10 {
        nl
    } else {
        Seq::<u8>::empty()
    }
}

/// Every line of a text reindented, the first one marked as first.
pub open spec fn reindent_from(b: Seq<u8>, first: bool, old: nat, new: nat, nl: Seq<u8>) -> Seq<u8>
    decreases b.len(),
{
    if b.len() == 0 {
        Seq::empty()
    } else {
        proof { lemma_first_newline(b); }
        let e = line_len(b);
        reindent_line(b.take(e), first, old, new, nl) + reindent_from(b.skip(e), false, old, new, nl)
    }
}

/// A block reindented from `old` to `new` with `nl` line breaks; unchanged
/// when the indentations are equal.
pub open spec fn reindent_spec(b: Seq<u8>, old: nat, new: nat, nl: Seq<u8>) -> Seq<u8> {
    if old == new {
        b
    } else {
        reindent_from(b, true, old, new, nl)
    }
}

fn push_spaces(out: &mut Vec<u8>, n: usize)
    ensures
        final(out)@ == old(out)@ + spaces(n as nat),
{
    let mut k: usize = 0;
    while k < n
        invariant
            k <= n,
            out@ == old(out)@ + spaces(k as nat),
        decreases n - k,
    {
        out.push(32);
        assert(spaces((k + 1) as nat) =~= spaces(k as nat).push(32u8));
        k = k + 1;
    }
}

fn push_range(out: &mut Vec<u8>, b: &[u8], from: usize, to: usize)
    requires
        from <= to <= b@.len(),
    ensures
        final(out)@ == old(out)@ + b@.subrange(from as int, to as int),
{
    let mut k: usize = from;
    while k < to
        invariant
            from <= k <= to,
            to <= b@.len(),
            out@ == old(out)@ + b@.subrange(from as int, k as int),
        decreases to - k,
    {
        out.push(b[k]);
        assert(b@.subrange(from as int, k + 1) =~= b@.subrange(from as int, k as int).push(b@[k as int]));
        k = k + 1;
    }
}

proof fn lemma_trim(l: Seq<u8>, n: int)
    requires
        0 <= n <= l.len(),
        forall|j: int| n <= j < l.len() ==> l[j] == 13 || l[j] == 10,
        n > 0 ==> l[n - 1] != 13 && l[n - 1] != 10,
    ensures
        trim_newlines(l) == l.take(n),
    decreases l.len(),
{
    if l.len() > n {
        assert(l.drop_last().take(n) == l.take(n));
        lemma_trim(l.drop_last(), n);
    } else {
        assert(l.take(n) == l);
    }
}

proof fn lemma_spaces(c: Seq<u8>, n: int)
    requires
        0 <= n <= c.len(),
        forall|j: int| 0 <= j < n ==> c[j] == 32,
        n < c.len() ==> c[n] != 32,
    ensures
        leading_spaces(c) == n,
    decreases n,
{
    if n > 0 {
        lemma_spaces(c.drop_first(), n - 1);
    }
}

/// Where the line that starts at `start` ends, after its `\n` if it has one.
fn line_end_at(bytes: &[u8], start: usize) -> (res: usize)
    requires
        start < bytes@.len(),
    ensures
        start < res <= bytes@.len(),
        res - start == line_len(bytes@.skip(start as int)),
{
    let ghost b = bytes@;
    let ghost rest = b.skip(start as int);
    proof { lemma_first_newline(rest); }
    let mut end = start;
    while end < bytes.len() && bytes[end] != 10
        invariant
            start <= end <= b.len(),
            b == bytes@,
            forall|j: int| start <= j < end ==> b[j] != 10,
        decreases b.len() - end,
    {
        end = end + 1;
    }
    proof {
        if end < b.len() {
            assert(rest[end - start] == 10);
            match first_newline(rest) {
                Some(i) => {
                    assert(rest[i] == b[start + i]);
                    if i < end - start {
                        assert(b[start + i] != 10);
                    }
                    assert(rest[end - start] == b[end as int]);
                },
                None => {},
            }
        } else {
            match first_newline(rest) {
                Some(i) => {
                    assert(rest[i] == b[start + i]);
                },
                None => {},
            }
        }
    }
    if end < bytes.len() { end + 1 } else { end }
}

/// Writes one reindented line.
fn push_line(out: &mut Vec<u8>, bytes: &[u8], start: usize, line_end: usize, first: bool, from: usize, to: usize, nl: &[u8])
    requires
        start < line_end <= bytes@.len(),
    ensures
        final(out)@ == old(out)@ + reindent_line(bytes@.subrange(start as int, line_end as int), first, from as nat, to as nat, nl@),
{
    let ghost b = bytes@;
    let ghost line = b.subrange(start as int, line_end as int);
    let mut content_end = line_end;
    while content_end > start && (bytes[content_end - 1] == 13 || bytes[content_end - 1] == 10)
        invariant
            start <= content_end <= line_end <= b.len(),
            b == bytes@,
            forall|j: int| content_end <= j < line_end ==> b[j] == 13 || b[j] == 10,
        decreases content_end - start,
    {
        content_end = content_end - 1;
    }
    proof {
        lemma_trim(line, content_end - start);
        assert(line.take(content_end - start) == b.subrange(start as int, content_end as int));
    }
    let ghost content = b.subrange(start as int, content_end as int);
    let mut sp_end = start;
    while sp_end < content_end && bytes[sp_end] == 32
        invariant
            start <= sp_end <= content_end <= b.len(),
            b == bytes@,
            forall|j: int| start <= j < sp_end ==> b[j] == 32,
        decreases content_end - sp_end,
    {
        sp_end = sp_end + 1;
    }
    let sp = sp_end - start;
    proof {
        lemma_spaces(content, sp as int);
    }
    if first && sp < from {
        push_range(out, bytes, start, content_end);
    } else {
        let ghost before = out@;
        push_spaces(out, to);
        if sp > from {
            push_spaces(out, sp - from);
        }
        push_range(out, bytes, sp_end, content_end);
        proof {
            let extra: nat = if sp > from { (sp - from) as nat } else { 0nat };
            assert(spaces(to as nat) + spaces(extra) =~= spaces(to as nat + extra));
            assert(content.skip(sp as int) =~= b.subrange(sp_end as int, content_end as int));
            assert(out@ =~= before + (spaces(to as nat + extra) + content.skip(sp as int)));
        }
    }
    if bytes[line_end - 1] == 10 {
        push_range(out, nl, 0, nl.len());
        assert(nl@.subrange(0, nl@.len() as int) == nl@);
    }
    proof {
        assert(line.last() == b[line_end - 1]);
    }
}

/// Moves a block of lines from indentation `from` to `to`, writing line
/// breaks as `newline`.
pub fn reindent(bytes: &[u8], from: usize, to: usize, newline: &str) -> (res: Vec<u8>)
    ensures
        res@ == reindent_spec(bytes@, from as nat, to as nat, encode_utf8(newline@)),
{
    if from == to {
        return crate::asset::to_vec(bytes);
    }
    let nl = newline.as_bytes();
    let ghost b = bytes@;
    let mut out: Vec<u8> = Vec::new();
    let mut start: usize = 0;
    let mut first = true;
    assert(b.skip(0) == b);
    while start < bytes.len()
        invariant
            start <= b.len(),
            b == bytes@,
            nl@ == encode_utf8(newline@),
            first == (start == 0),
            reindent_from(b, true, from as nat, to as nat, nl@)
                == out@ + reindent_from(b.skip(start as int), first, from as nat, to as nat, nl@),
        decreases b.len() - start,
    {
        let ghost rest = b.skip(start as int);
        let line_end = line_end_at(bytes, start);
        let ghost before = out@;
        push_line(&mut out, bytes, start, line_end, first, from, to, nl);
        proof {
            assert(rest.take(line_end - start) =~= b.subrange(start as int, line_end as int));
            assert(rest.skip(line_end - start) =~= b.skip(line_end as int));
        }
        start = line_end;
        first = false;
    }
    assert(b.skip(start as int) =~= Seq::<u8>::empty());
    out
}

} // verus!
