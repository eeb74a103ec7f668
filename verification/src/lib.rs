//! A small in-memory phone directory that associates names with phone
//! numbers and tracks a per-entry visibility flag, together with a handful
//! of independent verified utilities on numbers, text and key/value pairs.

pub mod numeric;
pub mod pairs;
pub mod phone_book;
pub mod seqs;
pub mod text;

pub use numeric::fib;
pub use numeric::is_palindrome;
pub use numeric::nthmax;
pub use pairs::hash_to_array;
pub use pairs::zip_hash;
pub use pairs::StringMap;
pub use phone_book::PhoneBook;
pub use phone_book::PhoneEntry;
pub use text::freq;
