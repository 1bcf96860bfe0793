//! Cooperative cancellation: a stop request never interrupts an open
//! instantiation, and an interrupted parse leaves no half-built edge.

use prototype::continue_agent::ParserContinueAgent;
use prototype::parser::Z3Parser1;
use prototype::runner::{LineOutcome, ParseStatus};

#[test]
fn stop_request_waits_for_open_instantiation() {
    let mut p = Z3Parser1::new();
    let mut agent = ParserContinueAgent::new(&p);
    let lines = vec![
        "[mk-var] #2 0".to_string(),
        "[mk-quant] #1 q1 1 #2".to_string(),
        "[new-match] 1a #1 #p1 ; #2".to_string(),
        "[instance] 1a #r1 0".to_string(),
        "[end-of-instance]".to_string(),
    ];
    // drive the dispatch loop by hand: request a stop while the
    // instantiation opened at the fourth record is still open
    let mut line_no = 0;
    while line_no < lines.len() {
        if !p.should_continue() {
            break;
        }
        match p.parse_line(&lines[line_no], line_no).expect("record accepted") {
            LineOutcome::Proceed | LineOutcome::Skipped => {}
            LineOutcome::Eof => break,
        }
        if line_no == 3 {
            // the instantiation is open now; ask for a stop
            agent.stop_parsing();
            // the dispatcher must still go on: the stack is non-empty
            assert!(p.should_continue());
        }
        line_no += 1;
    }
    // the stop was not honored before the close record drained the stack
    assert_eq!(line_no, 5);
    assert!(p.inst_stack.is_empty());
    // with the stack drained, the stop request now takes effect
    assert!(!p.should_continue());
    // every permanent edge is fully built: no target is left at 0
    assert!(!p.dependencies.is_empty());
    assert!(p.dependencies.iter().all(|d| d.to != 0));
}

#[test]
fn cleared_flag_interrupts_between_records() {
    let mut p = Z3Parser1::new();
    let mut agent = ParserContinueAgent::new(&p);
    agent.stop_parsing();
    let lines = vec!["[mk-var] #2 0".to_string()];
    let r = p.main_parse_loop(&lines);
    assert!(matches!(r, Ok(ParseStatus::Interrupted)));
    // nothing was consumed
    assert!(p.terms.get("#2").is_none());
}
