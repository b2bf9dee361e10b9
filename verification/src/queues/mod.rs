pub mod vec_scoped_stack;
pub mod deque_scoped_queue;
pub mod heapless_log;

pub use vec_scoped_stack::VecScopedStack;
pub use deque_scoped_queue::DequeScopedQueue;
pub use heapless_log::HeaplessLog;
