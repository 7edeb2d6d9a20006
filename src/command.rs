use vstd::prelude::*;
use vstd::slice::{slice_subrange, slice_to_vec};
use vstd::string::StringSliceAdditionalSpecFns;

verus! {

/// The first row to output: a non-negative `offset` counts from the first
/// row, a negative one from the end of the `num_rows` rows. `None` when the
/// row falls before the first one or out of `usize`.
pub open spec fn offset_spec(offset: i64, num_rows: i64) -> Option<int> {
    let row: int = if offset < 0 {
        num_rows + offset
    } else {
        offset as int
    };
    if 0 <= row <= usize::MAX {
        Some(row)
    } else {
        None
    }
}

/// Resolves the row offset of an output command against the row count.
pub fn absolute_offset(offset: i64, num_rows: i64) -> (r: Option<usize>)
    ensures
        match offset_spec(offset, num_rows) {
            Some(row) => r == Some(row as usize),
            None => r is None,
        },
{
    let row: i128 = if offset < 0 {
        num_rows as i128 + offset as i128
    } else {
        offset as i128
    };
    if row < 0 || row > usize::MAX as i128 {
        None
    } else {
        Some(row as usize)
    }
}

/// Where a file to read lives.
#[derive(PartialEq, Eq, Debug)]
pub enum Location {
    /// An object store bucket, `s3://bucket/key`.
    S3,
    /// A web server, an `http` or `https` URL.
    Http,
    /// The local file system.
    Local,
}

/// `s` begins with `prefix`.
pub open spec fn has_prefix(s: Seq<u8>, prefix: Seq<u8>) -> bool {
    prefix.len() <= s.len() && s.take(prefix.len() as int) == prefix
}

fn starts_with(s: &[u8], prefix: &[u8]) -> (r: bool)
    ensures
        r == has_prefix(s@, prefix@),
{
    if prefix.len() > s.len() {
        return false;
    }
    let mut i: usize = 0;
    while i < prefix.len()
        invariant
            prefix@.len() <= s@.len(),
            i <= prefix@.len(),
            forall|j: int| 0 <= j < i ==> s@[j] == prefix@[j],
        decreases prefix@.len() - i,
    {
        if s[i] != prefix[i] {
            assert(s@.take(prefix@.len() as int)[i as int] != prefix@[i as int]);
            return false;
        }
        i = i + 1;
    }
    assert(s@.take(prefix@.len() as int) =~= prefix@);
    true
}

/// The bytes of `s3://`.
pub open spec fn s3_scheme() -> Seq<u8> {
    seq![115u8, 51u8, 58u8, 47u8, 47u8]
}

/// The bytes of `http`.
pub open spec fn http_scheme() -> Seq<u8> {
    seq![104u8, 116u8, 116u8, 112u8]
}

/// The location of `path`: `s3://` first, then anything that begins with
/// `http`, else a local path.
pub open spec fn location_spec(path: Seq<u8>) -> Location {
    if has_prefix(path, s3_scheme()) {
        Location::S3
    } else if has_prefix(path, http_scheme()) {
        Location::Http
    } else {
        Location::Local
    }
}

/// Tells from its text where the file at `path` lives.
pub fn locate(path: &str) -> (r: Location)
    ensures
        r == location_spec(path.spec_bytes()),
{
    let bytes = path.as_bytes();
    let s3: [u8; 5] = [115, 51, 58, 47, 47];
    let http: [u8; 4] = [104, 116, 116, 112];
    assert(s3@ =~= s3_scheme());
    assert(http@ =~= http_scheme());
    if starts_with(bytes, s3.as_slice()) {
        Location::S3
    } else if starts_with(bytes, http.as_slice()) {
        Location::Http
    } else {
        Location::Local
    }
}

/// The pieces of `s` between commas, as `str::split(',')` gives them: one
/// piece for a text without comma, an empty piece around each extra comma.
pub open spec fn split_commas(s: Seq<u8>) -> Seq<Seq<u8>>
    decreases s.len(),
{
    if s.len() == 0 {
        seq![Seq::<u8>::empty()]
    } else {
        let prev = split_commas(s.drop_last());
        if s.last() == 44u8 {
            prev.push(Seq::empty())
        } else {
            prev.update(prev.len() - 1, prev.last().push(s.last()))
        }
    }
}

/// A requested column that begins with `?` may be missing from the file.
pub open spec fn is_optional(request: Seq<u8>) -> bool {
    request.len() > 0 && request[0] == 63u8
}

/// The column name of a request, without its `?`.
pub open spec fn column_name(request: Seq<u8>) -> Seq<u8> {
    if is_optional(request) {
        request.skip(1)
    } else {
        request
    }
}

/// The first position at or after `i` in `names` that holds `name`.
pub open spec fn find_from(names: Seq<Seq<u8>>, name: Seq<u8>, i: nat) -> Option<nat>
    decreases names.len() - i,
{
    if i >= names.len() {
        None
    } else if names[i as int] == name {
        Some(i)
    } else {
        find_from(names, name, i + 1)
    }
}

/// The bytes of each field name.
pub open spec fn names_bytes(field_names: Seq<&str>) -> Seq<Seq<u8>> {
    field_names.map_values(|f: &str| f.spec_bytes())
}

/// The selection so far after one more request: the position of its column
/// is added; a missing column is skipped if optional, else it is the error.
/// The first error stays.
pub open spec fn select_step(acc: Result<Seq<usize>, Seq<u8>>, request: Seq<u8>, names: Seq<Seq<u8>>) -> Result<Seq<usize>, Seq<u8>> {
    match acc {
        Err(e) => Err(e),
        Ok(picked) => match find_from(names, column_name(request), 0) {
            Some(i) => Ok(picked.push(i as usize)),
            None => if is_optional(request) {
                Ok(picked)
            } else {
                Err(request)
            },
        },
    }
}

/// The column positions that `requests` select, in request order, or the
/// first required column that `names` lacks.
pub open spec fn select_spec(requests: Seq<Seq<u8>>, names: Seq<Seq<u8>>) -> Result<Seq<usize>, Seq<u8>>
    decreases requests.len(),
{
    if requests.len() == 0 {
        Ok(Seq::empty())
    } else {
        select_step(select_spec(requests.drop_last(), names), requests.last(), names)
    }
}

spec fn selection_state(picked: Seq<usize>, failed: Option<Vec<u8>>) -> Result<Seq<usize>, Seq<u8>> {
    match failed {
        Some(e) => Err(e@),
        None => Ok(picked),
    }
}

fn same_bytes(b: &[u8], from: usize, to: usize, other: &[u8]) -> (r: bool)
    requires
        from <= to <= b@.len(),
    ensures
        r == (b@.subrange(from as int, to as int) == other@),
{
    if to - from != other.len() {
        return false;
    }
    let mut i: usize = 0;
    while i < other.len()
        invariant
            from <= to <= b@.len(),
            to - from == other@.len(),
            i <= other@.len(),
            forall|j: int| 0 <= j < i ==> b@[from + j] == other@[j],
        decreases other@.len() - i,
    {
        if b[from + i] != other[i] {
            assert(b@.subrange(from as int, to as int)[i as int] != other@[i as int]);
            return false;
        }
        i = i + 1;
    }
    assert(b@.subrange(from as int, to as int) =~= other@);
    true
}

fn find_field(field_names: &[&str], b: &[u8], from: usize, to: usize) -> (r: Option<usize>)
    requires
        from <= to <= b@.len(),
    ensures
        match find_from(names_bytes(field_names@), b@.subrange(from as int, to as int), 0) {
            Some(i) => r == Some(i as usize),
            None => r is None,
        },
{
    let ghost names = names_bytes(field_names@);
    let ghost name = b@.subrange(from as int, to as int);
    let mut j: usize = 0;
    while j < field_names.len()
        invariant
            j <= field_names@.len(),
            names == names_bytes(field_names@),
            name == b@.subrange(from as int, to as int),
            from <= to <= b@.len(),
            find_from(names, name, 0) == find_from(names, name, j as nat),
        decreases field_names@.len() - j,
    {
        if same_bytes(b, from, to, field_names[j].as_bytes()) {
            return Some(j);
        }
        j = j + 1;
    }
    None
}

fn take_request(
    b: &[u8],
    from: usize,
    to: usize,
    field_names: &[&str],
    picked: &mut Vec<usize>,
    failed: &mut Option<Vec<u8>>,
)
    requires
        from <= to <= b@.len(),
    ensures
        selection_state(final(picked)@, *final(failed)) == select_step(
            selection_state(old(picked)@, *old(failed)),
            b@.subrange(from as int, to as int),
            names_bytes(field_names@),
        ),
{
    if failed.is_some() {
        return;
    }
    let ghost request = b@.subrange(from as int, to as int);
    let optional = from < to && b[from] == 63;
    let name_from: usize = if optional {
        from + 1
    } else {
        from
    };
    assert(b@.subrange(name_from as int, to as int) =~= column_name(request));
    match find_field(field_names, b, name_from, to) {
        Some(i) => {
            picked.push(i);
        },
        None => {
            if !optional {
                *failed = Some(slice_to_vec(slice_subrange(b, from, to)));
            }
        },
    }
}

proof fn lemma_split_step(b: Seq<u8>, i: int)
    requires
        0 <= i < b.len(),
    ensures
        split_commas(b.take(i + 1)) == if b[i] == 44u8 {
            split_commas(b.take(i)).push(Seq::empty())
        } else {
            split_commas(b.take(i)).update(
                split_commas(b.take(i)).len() - 1,
                split_commas(b.take(i)).last().push(b[i]),
            )
        },
{
    assert(b.take(i + 1).drop_last() =~= b.take(i));
}

/// Picks the columns that `columns` names, comma separated, among
/// `field_names`: each name gives the position of the first field so named;
/// a name that begins with `?` may be missing. Returns the positions in
/// request order, or the first required column that no field has.
pub fn select_columns(columns: &str, field_names: &[&str]) -> (r: Result<Vec<usize>, Vec<u8>>)
    ensures
        match select_spec(split_commas(columns.spec_bytes()), names_bytes(field_names@)) {
            Ok(picked) => r matches Ok(v) && v@ == picked,
            Err(missing) => r matches Err(m) && m@ == missing,
        },
{
    let b = columns.as_bytes();
    let ghost names = names_bytes(field_names@);
    let mut picked: Vec<usize> = Vec::new();
    let mut failed: Option<Vec<u8>> = None;
    let mut seg_start: usize = 0;
    let mut i: usize = 0;
    let ghost mut done: Seq<Seq<u8>> = Seq::empty();
    assert(b@.take(0) =~= Seq::<u8>::empty());
    assert(b@.subrange(0, 0) =~= Seq::<u8>::empty());
    assert(split_commas(b@.take(0)) =~= done.push(b@.subrange(0, 0)));
    while i < b.len()
        invariant
            seg_start <= i <= b@.len(),
            names == names_bytes(field_names@),
            split_commas(b@.take(i as int)) == done.push(b@.subrange(seg_start as int, i as int)),
            selection_state(picked@, failed) == select_spec(done, names),
        decreases b@.len() - i,
    {
        proof {
            lemma_split_step(b@, i as int);
        }
        if b[i] == 44 {
            take_request(b, seg_start, i, field_names, &mut picked, &mut failed);
            proof {
                let seg = b@.subrange(seg_start as int, i as int);
                assert(done.push(seg).drop_last() =~= done);
                done = done.push(seg);
                assert(b@.subrange(i + 1, i + 1) =~= Seq::<u8>::empty());
            }
            seg_start = i + 1;
        } else {
            proof {
                let seg = b@.subrange(seg_start as int, i as int);
                assert(b@.subrange(seg_start as int, i + 1) =~= seg.push(b@[i as int]));
                assert(done.push(seg).update(done.len() as int, seg.push(b@[i as int])) =~= done.push(
                    seg.push(b@[i as int]),
                ));
            }
        }
        i = i + 1;
    }
    take_request(b, seg_start, i, field_names, &mut picked, &mut failed);
    proof {
        let seg = b@.subrange(seg_start as int, i as int);
        assert(b@.take(i as int) =~= b@);
        assert(done.push(seg).drop_last() =~= done);
    }
    match failed {
        Some(missing) => Err(missing),
        None => Ok(picked),
    }
}

} // verus!
