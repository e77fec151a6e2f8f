use vstd::prelude::*;

verus! {

/// The two chips of the legacy PIC cascade.
#[derive(Clone, Copy, PartialEq, Eq, Structural, Debug)]
pub enum PicType {
    Master,
    Slave,
}

/// The sixteen interrupt lines: 0..8 on the master, 8..16 on the slave.
#[derive(Clone, Copy, PartialEq, Eq, Structural, Debug)]
pub enum IRQCode {
    IRQ0,
    IRQ1,
    IRQ2,
    IRQ3,
    IRQ4,
    IRQ5,
    IRQ6,
    IRQ7,
    IRQ8,
    IRQ9,
    IRQ10,
    IRQ11,
    IRQ12,
    IRQ13,
    IRQ14,
    IRQ15,
}

pub open spec fn spec_irq_index(irq: IRQCode) -> u8 {
    match irq {
        IRQCode::IRQ0 => 0,
        IRQCode::IRQ1 => 1,
        IRQCode::IRQ2 => 2,
        IRQCode::IRQ3 => 3,
        IRQCode::IRQ4 => 4,
        IRQCode::IRQ5 => 5,
        IRQCode::IRQ6 => 6,
        IRQCode::IRQ7 => 7,
        IRQCode::IRQ8 => 8,
        IRQCode::IRQ9 => 9,
        IRQCode::IRQ10 => 10,
        IRQCode::IRQ11 => 11,
        IRQCode::IRQ12 => 12,
        IRQCode::IRQ13 => 13,
        IRQCode::IRQ14 => 14,
        IRQCode::IRQ15 => 15,
    }
}

impl IRQCode {
    /// The line number, 0..16.
    pub fn index(&self) -> (r: u8)
        ensures
            r == spec_irq_index(*self),
            r < 16,
    {
        match self {
            IRQCode::IRQ0 => 0,
            IRQCode::IRQ1 => 1,
            IRQCode::IRQ2 => 2,
            IRQCode::IRQ3 => 3,
            IRQCode::IRQ4 => 4,
            IRQCode::IRQ5 => 5,
            IRQCode::IRQ6 => 6,
            IRQCode::IRQ7 => 7,
            IRQCode::IRQ8 => 8,
            IRQCode::IRQ9 => 9,
            IRQCode::IRQ10 => 10,
            IRQCode::IRQ11 => 11,
            IRQCode::IRQ12 => 12,
            IRQCode::IRQ13 => 13,
            IRQCode::IRQ14 => 14,
            IRQCode::IRQ15 => 15,
        }
    }

    /// The chip the line belongs to.
    pub fn source(&self) -> (r: PicType)
        ensures
            r == (if spec_irq_index(*self) <= 7 { PicType::Master } else { PicType::Slave }),
    {
        if self.index() <= 7 {
            PicType::Master
        } else {
            PicType::Slave
        }
    }

    /// The line number on its own chip, 0..8.
    pub fn local_index(&self) -> (r: u8)
        ensures
            r == spec_irq_index(*self) % 8,
            r < 8,
    {
        match self.source() {
            PicType::Master => self.index(),
            PicType::Slave => self.index() - Pic::NUM_INTERRUPTS,
        }
    }
}

/// An I/O port that carries bytes.
#[derive(Clone, Copy, PartialEq, Eq, Structural, Debug)]
pub struct Port {
    pub address: u16,
}

/// One byte written to one port: the unit of work the PIC logic hands out.
#[derive(Clone, Copy, PartialEq, Eq, Structural, Debug)]
pub struct PortWrite {
    pub port: u16,
    pub value: u8,
}

impl Port {
    pub fn new(address: u16) -> (r: Port)
        ensures
            r.address == address,
    {
        Port { address }
    }

    /// The write of `value` to this port.
    pub fn write(&self, value: u8) -> (r: PortWrite)
        ensures
            r == (PortWrite { port: self.address, value }),
    {
        PortWrite { port: self.address, value }
    }
}

/// One 8259 chip: command port, data port, and the first interrupt vector it raises.
#[derive(Clone, Copy, PartialEq, Eq, Structural, Debug)]
pub struct Pic {
    pub command_port: Port,
    pub data_port: Port,
    pub interrupt_offset: u8,
    pub ty: PicType,
}

/// The initialisation words a chip receives, with a wait after each, then its saved mask.
pub open spec fn spec_init_sequence(pic: Pic, saved_mask: u8) -> Seq<PortWrite> {
    let wait = PortWrite { port: 0x80, value: 0 };
    let cascade: u8 = if pic.ty == PicType::Master { 4 } else { 2 };
    seq![
        PortWrite { port: pic.command_port.address, value: 0x11 },
        wait,
        PortWrite { port: pic.data_port.address, value: pic.interrupt_offset },
        wait,
        PortWrite { port: pic.data_port.address, value: cascade },
        wait,
        PortWrite { port: pic.data_port.address, value: 0x01 },
        wait,
        PortWrite { port: pic.data_port.address, value: saved_mask },
    ]
}

impl Pic {
    pub const NUM_INTERRUPTS: u8 = 8;

    const CMD_INIT: u8 = 0x11;
    const SLAVE_IRQ_LINE: u8 = 2;
    const CMD_MASTER: u8 = 4;
    const CMD_ICW4: u8 = 0x01;
    const CMD_EOI: u8 = 0x20;
    const WAIT_PORT: u16 = 0x80;

    /// A write to the unused port 0x80, which gives the chip time to take a command.
    pub fn io_port_wait() -> (r: PortWrite)
        ensures
            r == (PortWrite { port: 0x80, value: 0 }),
    {
        Port::new(Self::WAIT_PORT).write(0)
    }

    /// The chip whose command port is `port_base` and data port the next one.
    pub fn new(ty: PicType, port_base: u16, interrupt_offset: u8) -> (r: Pic)
        requires
            port_base < u16::MAX,
        ensures
            r.command_port.address == port_base,
            r.data_port.address == port_base + 1,
            r.interrupt_offset == interrupt_offset,
            r.ty == ty,
    {
        Pic {
            command_port: Port::new(port_base),
            data_port: Port::new(port_base + 1),
            interrupt_offset,
            ty,
        }
    }

    /// The initialisation sequence: ICW1 (init, ICW4 follows), ICW2 (vector offset), ICW3 (where
    /// the slave hangs), ICW4 (8086 mode), then the interrupt mask read before it started.
    pub fn initialize(&self, saved_mask: u8) -> (r: Vec<PortWrite>)
        ensures
            r@ == spec_init_sequence(*self, saved_mask),
    {
        let mut w: Vec<PortWrite> = Vec::new();
        w.push(self.command_port.write(Self::CMD_INIT));
        w.push(Self::io_port_wait());
        w.push(self.data_port.write(self.interrupt_offset));
        w.push(Self::io_port_wait());
        let cascade = match self.ty {
            PicType::Master => Self::CMD_MASTER,
            PicType::Slave => Self::SLAVE_IRQ_LINE,
        };
        w.push(self.data_port.write(cascade));
        w.push(Self::io_port_wait());
        w.push(self.data_port.write(Self::CMD_ICW4));
        w.push(Self::io_port_wait());
        w.push(self.data_port.write(saved_mask));
        proof {
            assert(w@ =~= spec_init_sequence(*self, saved_mask));
        }
        w
    }

    /// The new mask that unmasks line `index`, written to the data port.
    pub fn enable_interrupt(&self, current_mask: u8, index: u8) -> (r: PortWrite)
        requires
            index < 8,
        ensures
            r == (PortWrite { port: self.data_port.address, value: current_mask & !(1u8 << index) }),
    {
        self.data_port.write(current_mask & !(1u8 << index))
    }

    /// End of interrupt.
    pub fn signal_eoi(&self) -> (r: PortWrite)
        ensures
            r == (PortWrite { port: self.command_port.address, value: 0x20 }),
    {
        self.command_port.write(Self::CMD_EOI)
    }
}

/// The master and slave chips, remapped to vectors 32..40 and 40..48.
#[derive(Clone, Copy, PartialEq, Eq, Structural, Debug)]
pub struct CascadedPics {
    pub master: Pic,
    pub slave: Pic,
}

impl CascadedPics {
    /// First vector available to user-defined handlers.
    pub const MASTER_INTERRUPT_OFFSET: u8 = 32;
    pub const SLAVE_INTERRUPT_OFFSET: u8 = 40;
    pub const MASTER_PORT: u16 = 0x20;
    pub const SLAVE_PORT: u16 = 0xA0;

    pub fn new() -> (r: CascadedPics)
        ensures
            r.master.command_port.address == 0x20 && r.master.data_port.address == 0x21,
            r.slave.command_port.address == 0xA0 && r.slave.data_port.address == 0xA1,
            r.master.interrupt_offset == 32 && r.slave.interrupt_offset == 40,
            r.master.ty == PicType::Master && r.slave.ty == PicType::Slave,
    {
        let master = Pic::new(PicType::Master, Self::MASTER_PORT, Self::MASTER_INTERRUPT_OFFSET);
        let slave = Pic::new(PicType::Slave, Self::SLAVE_PORT, Self::SLAVE_INTERRUPT_OFFSET);
        CascadedPics { master, slave }
    }

    /// Initialises the master, then the slave.
    pub fn initialize(&self, master_mask: u8, slave_mask: u8) -> (r: Vec<PortWrite>)
        ensures
            r@ == spec_init_sequence(self.master, master_mask) + spec_init_sequence(self.slave, slave_mask),
    {
        let mut w = self.master.initialize(master_mask);
        let mut s = self.slave.initialize(slave_mask);
        w.append(&mut s);
        w
    }

    /// The interrupt vector that line `irq` raises.
    pub fn get_idt_offset(&self, irq: IRQCode) -> (r: u16)
        requires
            self.master.interrupt_offset <= 248,
            self.slave.interrupt_offset <= 248,
        ensures
            r == (if spec_irq_index(irq) <= 7 { self.master.interrupt_offset } else { self.slave.interrupt_offset })
                + spec_irq_index(irq) % 8,
    {
        match irq.source() {
            PicType::Master => (irq.local_index() + self.master.interrupt_offset) as u16,
            PicType::Slave => (irq.local_index() + self.slave.interrupt_offset) as u16,
        }
    }

    /// Unmasks line `irq` on its chip, given that chip's current mask.
    pub fn enable_interrupt(&self, irq: IRQCode, current_mask: u8) -> (r: PortWrite)
        ensures
            spec_irq_index(irq) <= 7 ==> r == self.master.enable_interrupt_spec(current_mask, spec_irq_index(irq)),
            spec_irq_index(irq) > 7 ==> r == self.slave.enable_interrupt_spec(current_mask, (spec_irq_index(irq) - 8) as u8),
    {
        match irq.source() {
            PicType::Master => self.master.enable_interrupt(current_mask, irq.local_index()),
            PicType::Slave => self.slave.enable_interrupt(current_mask, irq.local_index()),
        }
    }

    /// End of interrupt for `irq`: a slave line needs the slave and then the master told, a master
    /// line only the master.
    pub fn signal_eoi(&self, irq: IRQCode) -> (r: Vec<PortWrite>)
        ensures
            spec_irq_index(irq) > 7 ==> r@ == seq![
                PortWrite { port: self.slave.command_port.address, value: 0x20 },
                PortWrite { port: self.master.command_port.address, value: 0x20 },
            ],
            spec_irq_index(irq) <= 7 ==> r@ == seq![PortWrite { port: self.master.command_port.address, value: 0x20 }],
    {
        let mut w: Vec<PortWrite> = Vec::new();
        if irq.source() == PicType::Slave {
            w.push(self.slave.signal_eoi());
        }
        w.push(self.master.signal_eoi());
        proof {
            if spec_irq_index(irq) > 7 {
                assert(w@ =~= seq![
                    PortWrite { port: self.slave.command_port.address, value: 0x20 },
                    PortWrite { port: self.master.command_port.address, value: 0x20 },
                ]);
            } else {
                assert(w@ =~= seq![PortWrite { port: self.master.command_port.address, value: 0x20 }]);
            }
        }
        w
    }
}

impl Pic {
    /// The write that unmasks line `index` given the current mask.
    pub open spec fn enable_interrupt_spec(&self, current_mask: u8, index: u8) -> PortWrite {
        PortWrite { port: self.data_port.address, value: current_mask & !(1u8 << index) }
    }
}

} // verus!
