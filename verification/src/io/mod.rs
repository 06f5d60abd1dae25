pub mod bytesreader;
pub mod console;
pub mod klog;
