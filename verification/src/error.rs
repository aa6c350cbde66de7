//! Errors of the page store, of tables and of sorted builds.

use vstd::prelude::*;
use vstd::std_specs::convert::FromSpec;
use vstd::std_specs::convert::FromSpecImpl;

verus! {

/// What can go wrong below the level of tables.
#[derive(Debug)]
pub enum StorageError {
    /// The stored data contradict themselves.
    Corrupted(String),
    /// A record or a page of the given size cannot be encoded.
    ValueTooLarge(usize),
    /// The page store has no page left.
    OutOfPages,
}

/// What a [`StorageError`] says.
pub enum StorageFault {
    Corrupted(Seq<char>),
    ValueTooLarge(usize),
    OutOfPages,
}

impl View for StorageError {
    type V = StorageFault;

    open spec fn view(&self) -> StorageFault {
        match self {
            StorageError::Corrupted(message) => StorageFault::Corrupted(message@),
            StorageError::ValueTooLarge(size) => StorageFault::ValueTooLarge(*size),
            StorageError::OutOfPages => StorageFault::OutOfPages,
        }
    }
}

/// What can go wrong when a table is opened.
#[derive(Debug)]
pub enum TableError {
    /// The table holds other key or value types than it is opened with.
    TableTypeMismatch { table: String, key: String, value: String },
    /// The table maps each key to several values.
    TableIsMultimap(String),
    /// There is no table of this name.
    TableDoesNotExist(String),
}

/// What a [`TableError`] says.
pub enum TableFault {
    TableTypeMismatch { table: Seq<char>, key: Seq<char>, value: Seq<char> },
    TableIsMultimap(Seq<char>),
    TableDoesNotExist(Seq<char>),
}

impl View for TableError {
    type V = TableFault;

    open spec fn view(&self) -> TableFault {
        match self {
            TableError::TableTypeMismatch { table, key, value } => TableFault::TableTypeMismatch {
                table: table@,
                key: key@,
                value: value@,
            },
            TableError::TableIsMultimap(table) => TableFault::TableIsMultimap(table@),
            TableError::TableDoesNotExist(table) => TableFault::TableDoesNotExist(table@),
        }
    }
}

/// What can go wrong in a sorted build.
#[derive(Debug)]
pub enum Error {
    /// The stored data contradict themselves.
    Corrupted(String),
    /// A record or a page of the given size cannot be encoded.
    ValueTooLarge(usize),
    /// The page store has no page left.
    OutOfPages,
    /// The table holds other key or value types than it is opened with.
    TableTypeMismatch { table: String, key: String, value: String },
    /// The table maps each key to several values.
    TableIsMultimap(String),
    /// There is no table of this name.
    TableDoesNotExist(String),
    /// The table to build already holds records.
    SortedTableNotEmpty(String),
    /// A key was not greater than the key before it.
    SortedTableKeyOrder,
    /// The producer returned successfully although one of its insertions had failed.
    SortedTableBuilderFailed,
}

/// What an [`Error`] says.
pub enum Fault {
    Storage(StorageFault),
    Table(TableFault),
    SortedTableNotEmpty(Seq<char>),
    SortedTableKeyOrder,
    SortedTableBuilderFailed,
}

impl View for Error {
    type V = Fault;

    open spec fn view(&self) -> Fault {
        match self {
            Error::Corrupted(message) => Fault::Storage(StorageFault::Corrupted(message@)),
            Error::ValueTooLarge(size) => Fault::Storage(StorageFault::ValueTooLarge(*size)),
            Error::OutOfPages => Fault::Storage(StorageFault::OutOfPages),
            Error::TableTypeMismatch { table, key, value } => Fault::Table(
                TableFault::TableTypeMismatch { table: table@, key: key@, value: value@ },
            ),
            Error::TableIsMultimap(table) => Fault::Table(TableFault::TableIsMultimap(table@)),
            Error::TableDoesNotExist(table) => Fault::Table(TableFault::TableDoesNotExist(table@)),
            Error::SortedTableNotEmpty(table) => Fault::SortedTableNotEmpty(table@),
            Error::SortedTableKeyOrder => Fault::SortedTableKeyOrder,
            Error::SortedTableBuilderFailed => Fault::SortedTableBuilderFailed,
        }
    }
}

impl FromSpecImpl<StorageError> for Error {
    open spec fn obeys_from_spec() -> bool {
        true
    }

    open spec fn from_spec(error: StorageError) -> Error {
        match error {
            StorageError::Corrupted(message) => Error::Corrupted(message),
            StorageError::ValueTooLarge(size) => Error::ValueTooLarge(size),
            StorageError::OutOfPages => Error::OutOfPages,
        }
    }
}

impl From<StorageError> for Error {
    fn from(error: StorageError) -> (converted: Error) {
        match error {
            StorageError::Corrupted(message) => Error::Corrupted(message),
            StorageError::ValueTooLarge(size) => Error::ValueTooLarge(size),
            StorageError::OutOfPages => Error::OutOfPages,
        }
    }
}

impl FromSpecImpl<TableError> for Error {
    open spec fn obeys_from_spec() -> bool {
        true
    }

    open spec fn from_spec(error: TableError) -> Error {
        match error {
            TableError::TableTypeMismatch { table, key, value } => Error::TableTypeMismatch {
                table,
                key,
                value,
            },
            TableError::TableIsMultimap(table) => Error::TableIsMultimap(table),
            TableError::TableDoesNotExist(table) => Error::TableDoesNotExist(table),
        }
    }
}

impl From<TableError> for Error {
    fn from(error: TableError) -> (converted: Error) {
        match error {
            TableError::TableTypeMismatch { table, key, value } => Error::TableTypeMismatch {
                table,
                key,
                value,
            },
            TableError::TableIsMultimap(table) => Error::TableIsMultimap(table),
            TableError::TableDoesNotExist(table) => Error::TableDoesNotExist(table),
        }
    }
}

/// An error says what it is: no two kinds of errors look alike, and sizes and names are kept.
pub proof fn law_errors_say_what_they_are(error: Error, storage: StorageError, table: TableError)
    ensures
        match error {
            Error::Corrupted(message) => error@ == Fault::Storage(
                StorageFault::Corrupted(message@),
            ),
            Error::ValueTooLarge(size) => error@ == Fault::Storage(
                StorageFault::ValueTooLarge(size),
            ),
            Error::OutOfPages => error@ == Fault::Storage(StorageFault::OutOfPages),
            Error::TableTypeMismatch { table, key, value } => error@ == Fault::Table(
                TableFault::TableTypeMismatch { table: table@, key: key@, value: value@ },
            ),
            Error::TableIsMultimap(name) => error@ == Fault::Table(
                TableFault::TableIsMultimap(name@),
            ),
            Error::TableDoesNotExist(name) => error@ == Fault::Table(
                TableFault::TableDoesNotExist(name@),
            ),
            Error::SortedTableNotEmpty(name) => error@ == Fault::SortedTableNotEmpty(name@),
            Error::SortedTableKeyOrder => error@ == Fault::SortedTableKeyOrder,
            Error::SortedTableBuilderFailed => error@ == Fault::SortedTableBuilderFailed,
        },
        match storage {
            StorageError::Corrupted(message) => storage@ == StorageFault::Corrupted(message@),
            StorageError::ValueTooLarge(size) => storage@ == StorageFault::ValueTooLarge(size),
            StorageError::OutOfPages => storage@ == StorageFault::OutOfPages,
        },
        match table {
            TableError::TableTypeMismatch { table: name, key, value } => table@
                == (TableFault::TableTypeMismatch { table: name@, key: key@, value: value@ }),
            TableError::TableIsMultimap(name) => table@ == TableFault::TableIsMultimap(name@),
            TableError::TableDoesNotExist(name) => table@ == TableFault::TableDoesNotExist(name@),
        },
{
}

/// An error that is passed on as the error of a build says the same.
pub proof fn law_passed_on_errors_say_the_same(storage: StorageError, table: TableError)
    ensures
        <Error as FromSpec<StorageError>>::from_spec(storage)@ == Fault::Storage(storage@),
        <Error as FromSpec<TableError>>::from_spec(table)@ == Fault::Table(table@),
{
}

} // verus!
