//! Versioned archives of operators.

use vstd::prelude::*;
use crate::archive::{ComplexMatrix, Purpose};
use crate::archive;
use crate::archive_laws;
use crate::columns;
use crate::container::Packer;
use crate::container;
use crate::error::{QmbedError, Result};
use crate::linear::LinearOperator;
use crate::linear;
use crate::local::Bits;
use crate::operator::{MatrixFormat, Operator};
use crate::operator;
use crate::scalar::Amplitude;

verus! {

/// The archive holds its version and the matrix.
pub open spec fn archives(
    bytes: Seq<u8>,
    rows: usize,
    columns: usize,
    values: Seq<(u64, u64)>,
) -> bool {
    &&& sound_archive(bytes)
    &&& held(bytes, "archive_version.npy"@) == Some(
        archive::byte_file(seq![archive::ARCHIVE_VERSION]),
    )
    &&& held(bytes, "matrix.npy"@) == Some(
        archive::complex_file(rows, columns, values),
    )
}

fn refused() -> (error: QmbedError)
    ensures
        error is Archive,
{
    QmbedError::Archive("the archive cannot be written".to_string())
}

/// Adds a member to an archive.
fn add_member(packer: Packer, name: &str, bytes: &[u8]) -> (result: Result<Packer>)
    requires
        container::plain_name(name@),
    ensures
        match result {
            Ok(after) => {
                &&& container::members_of(after) == container::members_of(packer).push(
                    (name@, bytes@),
                )
                &&& container::unused_name(container::members_of(packer), name@)
            },
            Err(error) => error is Archive && !(container::unused_name(
                container::members_of(packer),
                name@,
            ) && name@.len() <= 1000 && container::moderate(container::members_of(packer))
                && bytes@.len() <= container::MEMBER_LIMIT),
        },
{
    let mut open: Packer = packer;
    if container::begin_member(&mut open, name).is_err() {
        return Err(refused());
    }
    let ghost started = container::members_of(open);
    if container::write_member(&mut open, bytes).is_err() {
        return Err(refused());
    }
    proof {
        assert(started.drop_last() =~= container::members_of(packer));
        assert(Seq::<u8>::empty() + bytes@ =~= bytes@);
    }
    Ok(open)
}

/// Packs a matrix of complex numbers, given by bit patterns, into an archive.
pub fn pack_matrix(rows: usize, columns: usize, values: &[(u64, u64)]) -> (result: Result<Vec<u8>>)
    ensures
        match result {
            Ok(bytes) => values@.len() == rows * columns && archives(
                bytes@,
                rows,
                columns,
                values@,
            ),
            Err(QmbedError::DimensionMismatch(_)) => values@.len() != rows * columns,
            Err(QmbedError::Archive(_)) => values@.len() == rows * columns
                && archive::complex_file(rows, columns, values@).len() > container::MEMBER_LIMIT,
            Err(_) => false,
        },
{
    proof {
        archive_laws::headers_fit(archive::ARCHIVE_VERSION, rows, columns);
    }
    let matrix: Vec<u8> = match archive::write_complex_npy(rows, columns, values) {
        Ok(matrix) => matrix,
        Err(error) => {
            return Err(error);
        },
    };
    let mut number: Vec<u8> = Vec::new();
    number.push(archive::ARCHIVE_VERSION);
    let version: Vec<u8> = match archive::write_u8_npy(number.as_slice()) {
        Ok(version) => version,
        Err(error) => {
            return Err(error);
        },
    };
    assert(number@ =~= seq![archive::ARCHIVE_VERSION]);
    proof {
        reveal_strlit("archive_version.npy");
        reveal_strlit("matrix.npy");
    }
    let empty: Packer = container::start_archive();
    let first: Packer = match add_member(empty, "archive_version.npy", version.as_slice()) {
        Ok(packer) => packer,
        Err(error) => {
            return Err(error);
        },
    };
    let second: Packer = match add_member(first, "matrix.npy", matrix.as_slice()) {
        Ok(packer) => packer,
        Err(error) => {
            return Err(error);
        },
    };
    let ghost members = container::members_of(second);
    assert(members[0] == ("archive_version.npy"@, version@));
    assert(members[1] == ("matrix.npy"@, matrix@));
    assert(version@.len() == version.len() && matrix@.len() == matrix.len());
    match container::finish_archive(second) {
        Ok(bytes) => Ok(bytes),
        Err(_) => Err(refused()),
    }
}

/// The matrix of an archive with the given members; nothing where the version is another
/// one, or where the matrix is missing or cannot be read.
pub open spec fn matrix_of(version: Option<Seq<u8>>, matrix: Option<Seq<u8>>) -> Option<
    (nat, nat, Seq<(nat, nat)>),
> {
    if version matches Some(bytes) && archive::stored_version(bytes) != Some(
        archive::ARCHIVE_VERSION,
    ) {
        None
    } else {
        match matrix {
            Some(bytes) => archive::stored_matrix(bytes),
            None => None,
        }
    }
}

pub open spec fn member_view(member: Option<Vec<u8>>) -> Option<Seq<u8>> {
    match member {
        Some(bytes) => Some(bytes@),
        None => None,
    }
}

/// Reads the matrix from the members of an archive.
pub fn unpack_members(version: Option<Vec<u8>>, matrix: Option<Vec<u8>>) -> (result: Result<
    ComplexMatrix,
>)
    ensures
        match result {
            Ok(read) => matrix_of(member_view(version), member_view(matrix)) == Some(
                (read.rows as nat, read.columns as nat, archive::wide_pairs(read.values@)),
            ),
            Err(error) => error is Archive && matrix_of(
                member_view(version),
                member_view(matrix),
            ) is None,
        },
{
    if let Some(bytes) = &version {
        match archive::read_version(bytes.as_slice()) {
            Ok(number) => match archive::check_version(number) {
                Ok(_) => {},
                Err(error) => {
                    return Err(error);
                },
            },
            Err(error) => {
                return Err(error);
            },
        }
    }
    match &matrix {
        Some(bytes) => archive::read_complex_matrix(bytes.as_slice()),
        None => Err(QmbedError::Archive("the archive holds no matrix".to_string())),
    }
}

/// The contents of a member of an archive; nothing where there is no such member.
pub open spec fn held(bytes: Seq<u8>, name: Seq<char>) -> Option<Seq<u8>> {
    if container::has_member(bytes, name) {
        container::member_in(bytes, name)
    } else {
        None
    }
}

/// There is no such member, or it can be unpacked whole and fits into memory.
pub open spec fn sound_member(bytes: Seq<u8>, name: Seq<char>) -> bool {
    container::has_member(bytes, name) ==> (container::member_in(bytes, name) matches Some(contents)
        && contents.len() <= usize::MAX)
}

/// None of the members of an archive that are read for a matrix is damaged.
pub open spec fn sound_archive(bytes: Seq<u8>) -> bool {
    sound_member(bytes, "archive_version.npy"@) && sound_member(bytes, "matrix.npy"@)
}

/// The matrix of an archive.
pub open spec fn packed_matrix(bytes: Seq<u8>) -> Option<(nat, nat, Seq<(nat, nat)>)> {
    matrix_of(held(bytes, "archive_version.npy"@), held(bytes, "matrix.npy"@))
}

/// Reads as much of a member as is needed, and no more: what follows in the archive may be
/// damaged.
fn fetch_member(bytes: &[u8], name: &str, purpose: Purpose) -> (result: Result<Option<Vec<u8>>>)
    ensures
        match result {
            Ok(None) => !container::has_member(bytes@, name@),
            Ok(Some(start)) => container::has_member(bytes@, name@) && (sound_member(bytes@, name@)
                ==> archive::read_alike(
                start@,
                container::member_in(bytes@, name@)->Some_0,
                purpose,
            )),
            Err(error) => error is Archive && !sound_member(bytes@, name@),
        },
{
    let mut length: usize = 8;
    loop
        decreases usize::MAX - length,
    {
        let start: Vec<u8> = match container::read_member(bytes, name, length) {
            Ok(Some(start)) => start,
            Ok(None) => {
                return Ok(None);
            },
            Err(_) => {
                return Err(QmbedError::Archive("a member cannot be unpacked".to_string()));
            },
        };
        if start.len() < length {
            return Ok(Some(start));
        }
        let wanted: Option<usize> = archive::count_needed(start.as_slice(), purpose);
        let ghost contents = container::member_in(bytes@, name@)->Some_0;
        proof {
            if sound_member(bytes@, name@) {
                assert(start@ == container::front(contents, length as nat));
                assert(start@ =~= contents.take(length as int));
            }
        }
        match wanted {
            Some(count) => {
                if count <= length {
                    proof {
                        if sound_member(bytes@, name@) {
                            archive::first_bytes_suffice(contents, length as nat, purpose);
                        }
                    }
                    return Ok(Some(start));
                }
                length = count;
            },
            None => {
                proof {
                    if sound_member(bytes@, name@) {
                        archive::first_bytes_suffice(contents, length as nat, purpose);
                    }
                }
                return Ok(Some(start));
            },
        }
    }
}

/// Reads the matrix of an archive. What an archive with a damaged member gives is not said
/// beyond the shape; [`unpack_members`] says it for what was read.
pub fn unpack_matrix(bytes: &[u8]) -> (result: Result<ComplexMatrix>)
    ensures
        match result {
            Ok(read) => {
                &&& read.values@.len() == read.rows * read.columns
                &&& sound_archive(bytes@) ==> packed_matrix(bytes@) == Some(
                    (read.rows as nat, read.columns as nat, archive::wide_pairs(read.values@)),
                )
            },
            Err(error) => error is Archive && (sound_archive(bytes@) ==> packed_matrix(
                bytes@,
            ) is None),
        },
{
    let version: Option<Vec<u8>> = match fetch_member(
        bytes,
        "archive_version.npy",
        Purpose::Version,
    ) {
        Ok(version) => version,
        Err(error) => {
            return Err(error);
        },
    };
    let matrix: Option<Vec<u8>> = match fetch_member(bytes, "matrix.npy", Purpose::Matrix) {
        Ok(matrix) => matrix,
        Err(error) => {
            return Err(error);
        },
    };
    let ghost parts = (member_view(version), member_view(matrix));
    proof {
        if sound_archive(bytes@) {
            assert(matrix_of(parts.0, parts.1) == packed_matrix(bytes@));
        }
        if let Some((rows, columns, pairs)) = matrix_of(parts.0, parts.1) {
            assert(pairs.len() == rows * columns);
        }
    }
    let result: Result<ComplexMatrix> = unpack_members(version, matrix);
    proof {
        if let Ok(read) = &result {
            assert(archive::wide_pairs(read.values@).len() == read.values@.len());
        }
    }
    result
}

/// The bit patterns of numbers.
pub open spec fn patterns<V: Amplitude>(values: Seq<V>) -> Seq<(u64, u64)> {
    Seq::new(values.len(), |i: int| (values[i].pattern().first, values[i].pattern().second))
}

/// The numbers with given bit patterns.
pub open spec fn numbers<V: Amplitude>(list: Seq<(u64, u64)>) -> Seq<V> {
    Seq::new(list.len(), |i: int| V::of_bits(Bits { first: list[i].0, second: list[i].1 }))
}

/// The archive of an operator.
pub fn save_operator_npz<V: Amplitude, O: LinearOperator<V>>(operator: &O) -> (result: Result<
    Vec<u8>,
>)
    requires
        operator.usable(),
        operator.extent().0 * operator.extent().1 <= usize::MAX,
    ensures
        match result {
            Ok(bytes) => exists|values: Seq<V>| #[trigger]
                columns::dense_images(operator, values) && archives(
                    bytes@,
                    operator.extent().0,
                    operator.extent().1,
                    patterns(values),
                ),
            Err(error) => linear::refuses_unit_with(operator, error) || (error is Archive && exists|
                values: Seq<V>,
            | #[trigger]
                columns::dense_images(operator, values) && archive::complex_file(
                    operator.extent().0,
                    operator.extent().1,
                    patterns(values),
                ).len() > container::MEMBER_LIMIT),
        },
{
    let (rows, width): (usize, usize) = operator.shape();
    let values: Vec<V> = match columns::materialize_dense(operator) {
        Ok(values) => values,
        Err(error) => {
            return Err(error);
        },
    };
    let mut list: Vec<(u64, u64)> = Vec::new();
    while list.len() < values.len()
        invariant
            list@.len() <= values@.len(),
            list@ =~= patterns(values@).take(list@.len() as int),
        decreases values@.len() - list@.len(),
    {
        let bits: Bits = values[list.len()].to_bits();
        list.push((bits.first, bits.second));
    }
    assert(list@ =~= patterns(values@));
    assert(columns::dense_images(operator, values@));
    pack_matrix(rows, width, list.as_slice())
}

fn is_storable(rows: usize, columns: usize, format: MatrixFormat) -> (fits: bool)
    ensures
        fits == operator::storable(rows, columns, format),
{
    match format {
        MatrixFormat::Dense => rows.checked_mul(columns).is_some(),
        MatrixFormat::Csc => columns < usize::MAX,
        MatrixFormat::Csr => rows < usize::MAX,
        _ => true,
    }
}

/// The operator holds the numbers with the given bit patterns.
pub open spec fn holds_patterns<V: Amplitude>(
    loaded: &Operator<V>,
    rows: nat,
    columns: nat,
    list: Seq<(u64, u64)>,
    format: MatrixFormat,
) -> bool {
    &&& loaded.wf()
    &&& loaded.rows() == rows
    &&& loaded.columns() == columns
    &&& loaded.format == format
    &&& list.len() == rows * columns
    &&& forall|row: int, column: int|
        loaded.inside(row, column) ==> #[trigger] loaded.entry(row, column) == numbers::<V>(
            list,
        )[operator::cell_index(columns as int, row, column)]
}

/// A number that has to be written anew in another format is not finite.
pub open spec fn holds_improper<V: Amplitude>(list: Seq<(u64, u64)>) -> bool {
    exists|i: int|
        0 <= i < list.len() && !(#[trigger] numbers::<V>(list)[i]).tiny() && !numbers::<V>(
            list,
        )[i].proper()
}

/// The list holds the numbers of the archived matrix.
pub open spec fn spells(bytes: Seq<u8>, list: Seq<(u64, u64)>) -> bool {
    packed_matrix(bytes) matches Some((_, _, pairs)) && pairs == archive::wide_pairs(list)
}

/// The operator with the numbers of a matrix.
pub fn operator_of<V: Amplitude>(read: &ComplexMatrix, format: MatrixFormat) -> (result: Result<
    Operator<V>,
>)
    ensures
        match result {
            Ok(loaded) => holds_patterns(
                &loaded,
                read.rows as nat,
                read.columns as nat,
                read.values@,
                format,
            ),
            Err(QmbedError::UnsupportedBackend(_)) => !operator::storable(
                read.rows,
                read.columns,
                format,
            ),
            Err(QmbedError::DimensionMismatch(_)) => read.values@.len() != read.rows
                * read.columns,
            Err(QmbedError::InvalidCoupling(_)) => format != MatrixFormat::Dense && holds_improper::<
                V,
            >(read.values@),
            Err(_) => false,
        },
{
    if !is_storable(read.rows, read.columns, format) {
        return Err(QmbedError::UnsupportedBackend("the shape exceeds the format".to_string()));
    }
    let ghost list = read.values@;
    let mut values: Vec<V> = Vec::new();
    while values.len() < read.values.len()
        invariant
            list == read.values@,
            values@.len() <= list.len(),
            values@ =~= numbers::<V>(list).take(values@.len() as int),
        decreases list.len() - values@.len(),
    {
        let (first, second): (u64, u64) = read.values[values.len()];
        values.push(V::from_bits(Bits { first, second }));
    }
    assert(values@ =~= numbers::<V>(list));
    let dense: Operator<V> = match Operator::from_dense(read.rows, read.columns, values) {
        Ok(dense) => dense,
        Err(error) => {
            return Err(error);
        },
    };
    let result: Result<Operator<V>> = dense.converted(format);
    proof {
        match &result {
            Ok(loaded) => {
                assert(holds_patterns(
                    loaded,
                    read.rows as nat,
                    read.columns as nat,
                    list,
                    format,
                ));
            },
            Err(_) => {
                let (row, column) = choose|row: int, column: int|
                    dense.inside(row, column) && !(#[trigger] dense.entry(row, column)).tiny()
                        && !dense.entry(row, column).proper();
                operator::lemma_cell_index(dense.rows(), dense.columns(), row, column);
                assert(!numbers::<V>(list)[operator::cell_index(
                    dense.columns(),
                    row,
                    column,
                )].tiny());
                assert(holds_improper::<V>(list));
            },
        }
    }
    result
}

/// The numbers of the archived matrix are in an operator of its shape.
pub open spec fn loads<V: Amplitude>(
    bytes: Seq<u8>,
    loaded: &Operator<V>,
    format: MatrixFormat,
) -> bool {
    exists|list: Seq<(u64, u64)>| #[trigger]
        spells(bytes, list) && holds_patterns(
            loaded,
            packed_matrix(bytes)->Some_0.0,
            packed_matrix(bytes)->Some_0.1,
            list,
            format,
        )
}

/// A number of the archived matrix has to be written anew and is not finite.
pub open spec fn spells_improper<V: Amplitude>(bytes: Seq<u8>) -> bool {
    exists|list: Seq<(u64, u64)>| #[trigger] spells(bytes, list) && holds_improper::<V>(list)
}

/// Reads an operator from its archive. What an archive with a damaged member gives is not
/// said beyond the format; [`unpack_members`] and [`operator_of`] say it for what was read.
pub fn load_operator_npz<V: Amplitude>(bytes: &[u8], format: MatrixFormat) -> (result: Result<
    Operator<V>,
>)
    ensures
        match result {
            Ok(loaded) => loaded.wf() && loaded.format == format && (sound_archive(bytes@)
                ==> loads(bytes@, &loaded, format)),
            Err(QmbedError::Archive(_)) => sound_archive(bytes@) ==> packed_matrix(bytes@) is None,
            Err(QmbedError::UnsupportedBackend(_)) => sound_archive(bytes@) ==> (packed_matrix(
                bytes@,
            ) matches Some((rows, columns, _)) && !operator::storable(
                rows as usize,
                columns as usize,
                format,
            )),
            Err(QmbedError::InvalidCoupling(_)) => format != MatrixFormat::Dense && (sound_archive(
                bytes@,
            ) ==> spells_improper::<V>(bytes@)),
            Err(_) => false,
        },
{
    let read: ComplexMatrix = match unpack_matrix(bytes) {
        Ok(read) => read,
        Err(error) => {
            return Err(error);
        },
    };
    proof {
        if sound_archive(bytes@) {
            assert(spells(bytes@, read.values@));
        }
    }
    operator_of(&read, format)
}

/// Reading the archive of an operator gives back its shape and every bit of its numbers.
pub proof fn archives_round_trip<V: Amplitude>(
    bytes: Seq<u8>,
    rows: usize,
    columns: usize,
    values: Seq<V>,
)
    requires
        values.len() == rows * columns,
        values.len() <= usize::MAX,
        archives(bytes, rows, columns, patterns(values)),
    ensures
        sound_archive(bytes),
        packed_matrix(bytes) == Some(
            (rows as nat, columns as nat, archive::wide_pairs(patterns(values))),
        ),
        numbers::<V>(patterns(values)) == values,
{
    archive_laws::version_round_trip(archive::ARCHIVE_VERSION);
    archive_laws::matrix_round_trip(rows, columns, patterns(values));
    assert forall|i: int| 0 <= i < values.len() implies numbers::<V>(patterns(values))[i]
        == values[i] by {
        values[i].lemma_bits();
        assert(Bits { first: values[i].pattern().first, second: values[i].pattern().second }
            == values[i].pattern());
    }
    assert(numbers::<V>(patterns(values)) =~= values);
}

} // verus!
