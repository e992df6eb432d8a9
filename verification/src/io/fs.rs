use vstd::prelude::*;
use vstd::string::StrSliceExecFns;

verus! {

/// The place of the last `c` in `s`, or -1 where `s` holds none.
pub open spec fn last_index_of(s: Seq<char>, c: char) -> int
    decreases s.len(),
{
    if s.len() == 0 {
        -1
    } else if s.last() == c {
        s.len() - 1
    } else {
        last_index_of(s.drop_last(), c)
    }
}

/// The file name of a path: what follows its last `/`.
pub open spec fn file_name_of(path: Seq<char>) -> Seq<char> {
    path.subrange(last_index_of(path, '/') + 1, path.len() as int)
}

/// The extension of a path: what follows the last `.` of its file name. A
/// file name without a `.`, or with none but its first character, has no
/// extension.
pub open spec fn extension_of(path: Seq<char>) -> Option<Seq<char>> {
    let name = file_name_of(path);
    let dot = last_index_of(name, '.');
    if dot <= 0 {
        None
    } else {
        Some(name.subrange(dot + 1, name.len() as int))
    }
}

proof fn lemma_last_index_bounds(s: Seq<char>, c: char)
    ensures
        -1 <= last_index_of(s, c) < s.len(),
        last_index_of(s, c) >= 0 ==> s[last_index_of(s, c)] == c,
        forall|j: int| last_index_of(s, c) < j < s.len() ==> s[j] != c,
    decreases s.len(),
{
    if s.len() > 0 && s.last() != c {
        lemma_last_index_bounds(s.drop_last(), c);
        assert forall|j: int| last_index_of(s, c) < j < s.len() implies s[j] != c by {
            if j < s.len() - 1 {
                assert(s.drop_last()[j] == s[j]);
            }
        }
    }
}

/// The last `.` of the file name, seen from the whole path.
proof fn lemma_dot_of_file_name(path: Seq<char>, slash: int, dot: int)
    requires
        slash == last_index_of(path, '/'),
        dot == last_index_of(path, '.'),
    ensures
        last_index_of(file_name_of(path), '.') == if dot > slash {
            dot - slash - 1
        } else {
            -1
        },
    decreases path.len(),
{
    lemma_last_index_bounds(path, '/');
    lemma_last_index_bounds(path, '.');
    let name = file_name_of(path);
    if path.len() == 0 {
    } else if path.last() == '/' {
        assert(name.len() == 0);
    } else {
        let rest = path.drop_last();
        lemma_dot_of_file_name(rest, last_index_of(rest, '/'), last_index_of(rest, '.'));
        lemma_last_index_bounds(rest, '/');
        lemma_last_index_bounds(rest, '.');
        assert(last_index_of(rest, '/') == slash);
        assert(name.drop_last() =~= file_name_of(rest));
        assert(name.last() == path.last());
    }
}

/// The extension of a path, without its dot.
pub fn extension(path: &str) -> (ext: Option<String>)
    ensures
        match ext {
            Some(ext) => extension_of(path@) == Some(ext@),
            None => extension_of(path@) is None,
        },
{
    let mut slash: Option<usize> = None;
    let mut dot: Option<usize> = None;
    let len = path.unicode_len();
    let mut i: usize = 0;
    for c in it: path.chars()
        invariant
            it.seq() == path@,
            i == it.index(),
            len == path@.len(),
            match slash {
                Some(k) => k == last_index_of(path@.take(i as int), '/'),
                None => last_index_of(path@.take(i as int), '/') == -1,
            },
            match dot {
                Some(k) => k == last_index_of(path@.take(i as int), '.'),
                None => last_index_of(path@.take(i as int), '.') == -1,
            },
    {
        proof {
            assert(path@.take(i + 1).drop_last() =~= path@.take(i as int));
            assert(path@.take(i + 1).last() == c);
        }
        if c == '/' {
            slash = Some(i);
        } else if c == '.' {
            dot = Some(i);
        }
        i += 1;
    }
    proof {
        assert(path@.take(len as int) =~= path@);
        lemma_dot_of_file_name(path@, last_index_of(path@, '/'), last_index_of(path@, '.'));
        lemma_last_index_bounds(path@, '/');
        lemma_last_index_bounds(path@, '.');
    }
    let start: usize = match slash {
        Some(k) => k + 1,
        None => 0,
    };
    match dot {
        Some(d) => {
            if d > start {
                let ext = path.substring_char(d + 1, len);
                proof {
                    let name = file_name_of(path@);
                    assert(name.subrange(d - start + 1, name.len() as int) =~= path@.subrange(
                        d + 1,
                        len as int,
                    ));
                }
                Some(ext.to_owned())
            } else {
                None
            }
        },
        None => None,
    }
}

} // verus!
