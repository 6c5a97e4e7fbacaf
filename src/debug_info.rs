use vstd::prelude::*;

verus! {

#[verifier::external_type_specification]
#[verifier::external_body]
#[verifier::reject_recursive_types(T)]
pub struct ExMutex<T: ?Sized>(std::sync::Mutex<T>);

#[verifier::external_type_specification]
#[verifier::external_body]
pub struct ExLoader(addr2line::Loader);

#[verifier::external_type_specification]
#[verifier::external_body]
#[verifier::reject_recursive_types(T)]
pub struct ExMutexGuard<'a, T: ?Sized + 'a>(std::sync::MutexGuard<'a, T>);

#[verifier::external_type_specification]
#[verifier::external_body]
#[verifier::reject_recursive_types(T)]
pub struct ExPoisonError<T>(std::sync::PoisonError<T>);

/// std's Mutex::lock: blocks until the calling thread holds the lock.
pub assume_specification<T: ?Sized>[ std::sync::Mutex::<T>::lock ](
    m: &std::sync::Mutex<T>,
) -> std::sync::LockResult<std::sync::MutexGuard<'_, T>>;

/// std's PoisonError::into_inner: the guard that a poisoned lock still hands out.
pub assume_specification<T>[ std::sync::PoisonError::<T>::into_inner ](
    e: std::sync::PoisonError<T>,
) -> T;

/// std's Deref for MutexGuard: the value that the lock protects.
pub assume_specification<'a, 'b, T: ?Sized>[ <std::sync::MutexGuard<'a, T> as core::ops::Deref>::deref ](
    g: &'b std::sync::MutexGuard<'a, T>,
) -> &'b T;

/// std's Mutex::new: wraps a value in a fresh, unlocked lock.
pub assume_specification<T>[ std::sync::Mutex::<T>::new ](t: T) -> std::sync::Mutex<T>;

/// What the debug-info reader reported as the first frame record for one
/// module-relative address.
pub enum FirstRecord {
    /// The query itself failed (malformed or unreadable debug data).
    QueryFailed,
    /// The query succeeded and produced no record.
    NoRecord,
    /// The first record carries no function name, or one that cannot be read.
    Unnamed,
    /// The first record's function name.
    Named(String),
}

/// A module's debug-info context behind a lock of its own, so that lookups
/// in one module never wait for lookups in another.
pub struct DebugContext {
    loader: std::sync::Mutex<addr2line::Loader>,
}

impl DebugContext {
    pub fn new(loader: addr2line::Loader) -> (r: Self) {
        DebugContext { loader: std::sync::Mutex::new(loader) }
    }

    /// Queries the debug information for the first frame record at `svma`;
    /// gives back the record and the address that was queried.
    pub(crate) fn first_record(&self, svma: usize) -> (r: (FirstRecord, u64))
        ensures
            r.1 == svma,
    {
        let guard = match self.loader.lock() {
            Ok(g) => g,
            Err(poisoned) => poisoned.into_inner(),
        };
        let rec = query_first_record(&*guard, svma as u64);
        rec
    }
}

/// Relies on addr2line's `Loader::find_frames` and `FrameIter::next` for the
/// innermost frame record at `svma`, and on `FunctionName::raw_name` for that
/// record's name. The iterator's reader type is unnamed, so the three calls
/// stand together. What comes back depends on the module's debug data, so
/// nothing is promised of it; only the address that was asked about is
/// handed back with it.
#[verifier::external_body]
fn query_first_record(loader: &addr2line::Loader, svma: u64) -> (r: (FirstRecord, u64))
    ensures
        r.1 == svma,
{
    let mut frames = match loader.find_frames(svma) {
        Ok(frames) => frames,
        Err(_) => return (FirstRecord::QueryFailed, svma),
    };
    let first = match frames.next() {
        Err(_) => FirstRecord::QueryFailed,
        Ok(None) => FirstRecord::NoRecord,
        Ok(Some(frame)) => match frame.function.as_ref().map(|f| f.raw_name()) {
            Some(Ok(name)) => FirstRecord::Named(name.into_owned()),
            _ => FirstRecord::Unnamed,
        },
    };
    (first, svma)
}

} // verus!
