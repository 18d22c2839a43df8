pub mod answer_result;
pub mod question;
pub mod test;
