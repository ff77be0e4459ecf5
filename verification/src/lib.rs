// Verified building blocks of small concurrent and networked programs:
// semaphores, dining philosophers, sorted linked lists, bounded message
// queues, HTTP request parsing, a paging viewer and caching proxies. The
// threads, locks, sockets and terminal stay with the caller; the library
// holds the state and the decisions, each with its contract.

pub mod cache;
pub mod http;
pub mod input;
pub mod list;
pub mod order;
pub mod pager;
pub mod philosophers;
pub mod philosophers_monitor;
pub mod queue;
pub mod relay;
pub mod rwlock_list;
pub mod sem_queue;
pub mod select_proxy;
pub mod semaphore;
pub mod sorting;
pub mod stepsort;
pub mod text;
pub mod threaded_proxy;
